use vstd::prelude::*;
use crate::random::{block_permuted, get_random, shuffle_range};
use crate::bytes::{
    be_bytes, be_value, le_bytes, le_value, lemma_be_roundtrip, lemma_be_value_bound,
    lemma_le_roundtrip, lemma_le_value_bound, lemma_pow256_small, pow256, signed_of, unsigned_of,
};
use crate::decimal::{
    decimal_text, decimal_text_of, decimal_text_value, fits_i64, is_ascii_digit,
    is_decimal_text, lemma_decimal_digits, lemma_decimal_text_roundtrip, parse_decimal_i64,
};

verus! {

// ---------------------------------------------------------------------
// Helpers on byte vectors
// ---------------------------------------------------------------------

/// Appends `src[from..to]` to `out`.
fn push_range(out: &mut Vec<u8>, src: &Vec<u8>, from: usize, to: usize)
    requires
        from <= to <= src@.len(),
    ensures
        final(out)@ == old(out)@ + src@.subrange(from as int, to as int),
{
    let ghost start = out@;
    let mut i: usize = from;
    while i < to
        invariant
            from <= i <= to <= src@.len(),
            out@ == start + src@.subrange(from as int, i as int),
        decreases to - i,
    {
        out.push(src[i]);
        assert(src@.subrange(from as int, i + 1) =~= src@.subrange(from as int, i as int).push(
            src@[i as int],
        ));
        assert(out@ =~= start + src@.subrange(from as int, i + 1));
        i = i + 1;
    }
}

/// Appends `count` copies of `byte` to `out`.
fn push_repeated(out: &mut Vec<u8>, byte: u8, count: usize)
    ensures
        final(out)@ == old(out)@ + Seq::new(count as nat, |_i: int| byte),
{
    let ghost start = out@;
    let mut i: usize = 0;
    while i < count
        invariant
            i <= count,
            out@ == start + Seq::new(i as nat, |_i: int| byte),
        decreases count - i,
    {
        out.push(byte);
        assert(out@ =~= start + Seq::new((i + 1) as nat, |_i: int| byte));
        i = i + 1;
    }
}

// ---------------------------------------------------------------------
// Minimal mutations
// ---------------------------------------------------------------------

/// `s` with bit `offset % 8` of byte `offset / 8` flipped.
pub open spec fn bit_flipped(s: Seq<u8>, offset: int) -> Seq<u8> {
    s.update(offset / 8, s[offset / 8] ^ (1u8 << ((offset % 8) as u8)))
}

/// Flips bit `offset` of the buffer, counting bits from the low bit of the
/// first byte.
pub fn flip_bit_at(buf: Vec<u8>, offset: usize) -> (res: Vec<u8>)
    requires
        offset / 8 < buf@.len(),
    ensures
        res@ == bit_flipped(buf@, offset as int),
{
    let mut buf = buf;
    let i: usize = offset / 8;
    let shift: u8 = (offset % 8) as u8;
    let b: u8 = buf[i] ^ (1u8 << shift);
    buf.set(i, b);
    buf
}

/// What flipping one random bit of `s` may give.
pub open spec fn flip_bit_outcome(s: Seq<u8>, r: Seq<u8>) -> bool {
    exists|offset: int| 0 <= offset < s.len() * 8 && r == #[trigger] bit_flipped(s, offset)
}

/// Flips one bit of the buffer, chosen at random.
pub fn flip_bit(buf: Vec<u8>) -> (res: Vec<u8>)
    requires
        buf@.len() > 0,
        buf@.len() * 8 <= usize::MAX,
    ensures
        flip_bit_outcome(buf@, res@),
{
    let offset = get_random(buf.len() * 8);
    flip_bit_at(buf, offset)
}

/// Flipping the same bit twice gives back the buffer.
pub proof fn lemma_flip_bit_involutive(s: Seq<u8>, offset: int)
    requires
        0 <= offset,
        offset / 8 < s.len(),
    ensures
        bit_flipped(bit_flipped(s, offset), offset) == s,
{
    let i = offset / 8;
    let m: u8 = 1u8 << ((offset % 8) as u8);
    let x = s[i];
    assert((x ^ m) ^ m == x) by (bit_vector);
    assert(bit_flipped(bit_flipped(s, offset), offset) =~= s);
}

/// Replaces byte `offset` of the buffer by `byte`.
pub fn change_byte_at(buf: Vec<u8>, offset: usize, byte: u8) -> (res: Vec<u8>)
    requires
        offset < buf@.len(),
    ensures
        res@ == buf@.update(offset as int, byte),
{
    let mut buf = buf;
    buf.set(offset, byte);
    buf
}

/// What replacing one random byte of `s` by a random byte may give.
pub open spec fn change_byte_outcome(s: Seq<u8>, r: Seq<u8>) -> bool {
    exists|offset: int, byte: u8| 0 <= offset < s.len() && r == #[trigger] s.update(offset, byte)
}

/// Replaces one byte of the buffer, chosen at random, by a random byte.
pub fn change_byte(buf: Vec<u8>) -> (res: Vec<u8>)
    requires
        buf@.len() > 0,
    ensures
        change_byte_outcome(buf@, res@),
{
    let offset = get_random(buf.len());
    let byte = get_random(256) as u8;
    change_byte_at(buf, offset, byte)
}

// ---------------------------------------------------------------------
// Block mutations
// ---------------------------------------------------------------------

/// The block of a buffer of `len` bytes that starts at `beg` and spans
/// `size` bytes, cut off at the end of the buffer.
pub open spec fn block_from(len: int, size: int, beg: int) -> (int, int) {
    (
        beg,
        if beg + size > len {
            len
        } else {
            beg + size
        },
    )
}

/// The block that starts at `beg` and spans `size` bytes, cut off at the
/// end of a buffer of `len` bytes.
pub fn select_block_at(len: usize, size: usize, beg: usize) -> (r: (usize, usize))
    requires
        beg < len,
    ensures
        (r.0 as int, r.1 as int) == block_from(len as int, size as int, beg as int),
{
    let end = if size > len - beg {
        len
    } else {
        beg + size
    };
    (beg, end)
}

/// The block that ends at `end` and spans `size` bytes, cut off at the start
/// of the buffer.
pub open spec fn block_to(size: int, end: int) -> (int, int) {
    (
        if end < size {
            0
        } else {
            end - size
        },
        end,
    )
}

/// The block that ends at `end` and spans `size` bytes, cut off at the start
/// of the buffer.
pub fn select_block_ending_at(size: usize, end: usize) -> (r: (usize, usize))
    ensures
        (r.0 as int, r.1 as int) == block_to(size as int, end as int),
{
    let beg = if end < size {
        0
    } else {
        end - size
    };
    (beg, end)
}

/// Picks a non-empty block `[beg, end)` of the buffer at random: a random
/// size from 1 to the buffer's length and a random start, cut off at the
/// end of the buffer. (The coin that would pick a block by its end always
/// shows 0.)
pub fn select_block<T>(buf: &Vec<T>) -> (r: (usize, usize))
    requires
        buf@.len() > 0,
    ensures
        r.0 < r.1 <= buf@.len(),
        exists|size: int, beg: int|
            1 <= size <= buf@.len() && 0 <= beg < buf@.len() && (r.0 as int, r.1 as int)
                == #[trigger] block_from(buf@.len() as int, size, beg),
{
    let len = buf.len();
    let size = get_random(len) + 1;
    if get_random(1) == 0 {
        let beg = get_random(len);
        select_block_at(len, size, beg)
    } else {
        let end = get_random(len) + 1;
        select_block_ending_at(size, end)
    }
}

/// `s` with the block `s[beg..end]` copied over the bytes from `dst` on.
pub open spec fn block_copied_over(s: Seq<u8>, beg: int, end: int, dst: int) -> Seq<u8> {
    s.subrange(0, dst) + s.subrange(beg, end) + s.subrange(dst + (end - beg), s.len() as int)
}

/// Copies the block `buf[beg..end]` over the bytes of the buffer from `dst` on.
pub fn overwrite_copy_block_at(buf: Vec<u8>, beg: usize, end: usize, dst: usize) -> (res: Vec<u8>)
    requires
        beg <= end <= buf@.len(),
        dst + (end - beg) <= buf@.len(),
    ensures
        res@ == block_copied_over(buf@, beg as int, end as int, dst as int),
{
    let mut buf = buf;
    let size = end - beg;
    let mut block: Vec<u8> = Vec::new();
    push_range(&mut block, &buf, beg, end);
    let ghost s = buf@;
    assert(block@ =~= s.subrange(beg as int, end as int));
    let n = buf.len();
    let mut i: usize = 0;
    while i < size
        invariant
            beg <= end <= s.len(),
            size == end - beg,
            dst + size <= s.len(),
            s.len() == n,
            block@ == s.subrange(beg as int, end as int),
            buf@.len() == s.len(),
            i <= size,
            buf@ =~= s.subrange(0, dst as int) + block@.subrange(0, i as int) + s.subrange(
                dst + i,
                s.len() as int,
            ),
        decreases size - i,
    {
        buf.set(dst + i, block[i]);
        assert(buf@ =~= s.subrange(0, dst as int) + block@.subrange(0, i + 1) + s.subrange(
            dst + i + 1,
            s.len() as int,
        ));
        i = i + 1;
    }
    assert(block@.subrange(0, size as int) =~= s.subrange(beg as int, end as int));
    buf
}

/// What copying the block `[beg, end)` of `s` over a random place may give:
/// nothing when the block is the whole of `s`, for there is no place left
/// to draw; otherwise the block lands at a position before the last one
/// where it would fit.
pub open spec fn copy_block_result(s: Seq<u8>, r: Option<Seq<u8>>, beg: int, end: int) -> bool {
    if end - beg == s.len() {
        r is None
    } else {
        exists|dst: int|
            0 <= dst < s.len() - (end - beg) && r == Some(
                #[trigger] block_copied_over(s, beg, end, dst),
            )
    }
}

/// Copies the drawn block `buf[beg..end]` over the bytes from the drawn
/// place `dst` on. When the block is the whole buffer no place can be
/// drawn for it (`dst` is then ignored) and nothing comes back.
pub fn overwrite_copy_block_drawn(buf: Vec<u8>, beg: usize, end: usize, dst: usize) -> (res: Option<
    Vec<u8>,
>)
    requires
        beg < end <= buf@.len(),
        end - beg < buf@.len() ==> dst < buf@.len() - (end - beg),
    ensures
        res is None <==> end - beg == buf@.len(),
        res matches Some(r) ==> r@ == block_copied_over(buf@, beg as int, end as int, dst as int),
{
    if buf.len() - (end - beg) == 0 {
        None
    } else {
        Some(overwrite_copy_block_at(buf, beg, end, dst))
    }
}

/// What copying a random block of `s` over a random place may give.
pub open spec fn overwrite_copy_block_result(s: Seq<u8>, r: Option<Seq<u8>>) -> bool {
    exists|beg: int, end: int| 0 <= beg < end <= s.len() && #[trigger] copy_block_result(s, r, beg, end)
}

/// Copies a random block of the buffer over another random place of it.
/// When the block drawn is the whole buffer, no place can be drawn for it
/// and nothing comes back.
pub fn overwrite_copy_block(buf: Vec<u8>) -> (res: Option<Vec<u8>>)
    requires
        buf@.len() > 0,
    ensures
        overwrite_copy_block_result(buf@, opt_view(res)),
{
    let ghost s = buf@;
    let (beg, end) = select_block(&buf);
    let size = end - beg;
    let dst = if buf.len() - size == 0 {
        0
    } else {
        get_random(buf.len() - size)
    };
    let res = overwrite_copy_block_drawn(buf, beg, end, dst);
    assert(copy_block_result(s, opt_view(res), beg as int, end as int));
    res
}

/// `s` with the block `s[beg..end]` inserted before position `offset`.
pub open spec fn block_inserted(s: Seq<u8>, beg: int, end: int, offset: int) -> Seq<u8> {
    s.subrange(0, offset) + s.subrange(beg, end) + s.subrange(offset, s.len() as int)
}

/// Inserts a copy of the block `buf[beg..end]` before position `offset`.
pub fn insert_copy_block_at(buf: Vec<u8>, beg: usize, end: usize, offset: usize) -> (res: Vec<u8>)
    requires
        beg <= end <= buf@.len(),
        offset <= buf@.len(),
    ensures
        res@ == block_inserted(buf@, beg as int, end as int, offset as int),
{
    let mut out: Vec<u8> = Vec::new();
    push_range(&mut out, &buf, 0, offset);
    push_range(&mut out, &buf, beg, end);
    push_range(&mut out, &buf, offset, buf.len());
    assert(out@ =~= block_inserted(buf@, beg as int, end as int, offset as int));
    out
}

/// What inserting a copy of a random block of `s` at a random place may give.
pub open spec fn insert_copy_block_outcome(s: Seq<u8>, r: Seq<u8>) -> bool {
    exists|beg: int, end: int, offset: int|
        0 <= beg < end <= s.len() && 0 <= offset <= s.len() && r == #[trigger] block_inserted(
            s,
            beg,
            end,
            offset,
        )
}

/// Inserts a copy of a random block of the buffer at a random place.
pub fn insert_copy_block(buf: Vec<u8>) -> (res: Vec<u8>)
    requires
        0 < buf@.len() < usize::MAX,
    ensures
        insert_copy_block_outcome(buf@, res@),
{
    let (beg, end) = select_block(&buf);
    let offset = get_random(buf.len() + 1);
    insert_copy_block_at(buf, beg, end, offset)
}

/// `s` with every byte of `[beg, end)` set to `byte`.
pub open spec fn block_filled(s: Seq<u8>, beg: int, end: int, byte: u8) -> Seq<u8> {
    s.subrange(0, beg) + Seq::new((end - beg) as nat, |_i: int| byte) + s.subrange(
        end,
        s.len() as int,
    )
}

/// Sets every byte of the block `[beg, end)` to `byte`.
pub fn overwrite_const_block_at(buf: Vec<u8>, beg: usize, end: usize, byte: u8) -> (res: Vec<u8>)
    requires
        beg <= end <= buf@.len(),
    ensures
        res@ == block_filled(buf@, beg as int, end as int, byte),
{
    let mut buf = buf;
    let ghost s = buf@;
    let mut i: usize = beg;
    while i < end
        invariant
            beg <= i <= end <= s.len(),
            buf@ =~= s.subrange(0, beg as int) + Seq::new((i - beg) as nat, |_i: int| byte)
                + s.subrange(i as int, s.len() as int),
        decreases end - i,
    {
        buf.set(i, byte);
        assert(buf@ =~= s.subrange(0, beg as int) + Seq::new((i + 1 - beg) as nat, |_i: int| byte)
            + s.subrange(i + 1, s.len() as int));
        i = i + 1;
    }
    buf
}

/// What setting every byte of a random block of `s` to a random byte may give.
pub open spec fn overwrite_const_block_outcome(s: Seq<u8>, r: Seq<u8>) -> bool {
    exists|beg: int, end: int, byte: u8|
        0 <= beg < end <= s.len() && r == #[trigger] block_filled(s, beg, end, byte)
}

/// Sets every byte of a random block to one random byte.
pub fn overwrite_const_block(buf: Vec<u8>) -> (res: Vec<u8>)
    requires
        buf@.len() > 0,
    ensures
        overwrite_const_block_outcome(buf@, res@),
{
    let (beg, end) = select_block(&buf);
    let byte = get_random(256) as u8;
    overwrite_const_block_at(buf, beg, end, byte)
}

/// `s` with `size` copies of `byte` inserted before position `offset`.
pub open spec fn bytes_inserted(s: Seq<u8>, offset: int, size: nat, byte: u8) -> Seq<u8> {
    s.subrange(0, offset) + Seq::new(size, |_i: int| byte) + s.subrange(offset, s.len() as int)
}

/// Inserts `size` copies of `byte` before position `offset`.
pub fn insert_const_block_at(buf: Vec<u8>, offset: usize, size: usize, byte: u8) -> (res: Vec<u8>)
    requires
        offset <= buf@.len(),
    ensures
        res@ == bytes_inserted(buf@, offset as int, size as nat, byte),
{
    let mut out: Vec<u8> = Vec::new();
    push_range(&mut out, &buf, 0, offset);
    push_repeated(&mut out, byte, size);
    push_range(&mut out, &buf, offset, buf.len());
    assert(out@ =~= bytes_inserted(buf@, offset as int, size as nat, byte));
    out
}

/// What inserting fewer than `s.len()` copies of a random byte at a random
/// place before the last byte of `s` may give.
pub open spec fn insert_const_block_outcome(s: Seq<u8>, r: Seq<u8>) -> bool {
    exists|offset: int, size: nat, byte: u8|
        0 <= offset < s.len() && size < s.len() && r == #[trigger] bytes_inserted(
            s,
            offset,
            size,
            byte,
        )
}

/// Inserts a random number (less than the buffer's length) of copies of a
/// random byte at a random place before the last byte.
pub fn insert_const_block(buf: Vec<u8>) -> (res: Vec<u8>)
    requires
        buf@.len() > 0,
    ensures
        insert_const_block_outcome(buf@, res@),
{
    let offset = get_random(buf.len());
    let size = get_random(buf.len());
    let byte = get_random(256) as u8;
    insert_const_block_at(buf, offset, size, byte)
}

/// `s` without the block `[beg, end)`.
pub open spec fn block_removed(s: Seq<u8>, beg: int, end: int) -> Seq<u8> {
    s.subrange(0, beg) + s.subrange(end, s.len() as int)
}

/// Removes the block `[beg, end)` from the buffer.
pub fn remove_block_at(buf: Vec<u8>, beg: usize, end: usize) -> (res: Vec<u8>)
    requires
        beg <= end <= buf@.len(),
    ensures
        res@ == block_removed(buf@, beg as int, end as int),
{
    let mut out: Vec<u8> = Vec::new();
    push_range(&mut out, &buf, 0, beg);
    push_range(&mut out, &buf, end, buf.len());
    out
}

/// What removing a random non-empty block of `s` may give.
pub open spec fn remove_block_outcome(s: Seq<u8>, r: Seq<u8>) -> bool {
    exists|beg: int, end: int| 0 <= beg < end <= s.len() && r == #[trigger] block_removed(s, beg, end)
}

/// Removes a random non-empty block from the buffer.
pub fn remove_block(buf: Vec<u8>) -> (res: Vec<u8>)
    requires
        buf@.len() > 0,
    ensures
        remove_block_outcome(buf@, res@),
{
    let (beg, end) = select_block(&buf);
    remove_block_at(buf, beg, end)
}

/// Removing the block that was just inserted gives back the buffer.
pub proof fn lemma_remove_inserted_copy(s: Seq<u8>, beg: int, end: int, offset: int)
    requires
        0 <= beg <= end <= s.len(),
        0 <= offset <= s.len(),
    ensures
        block_removed(block_inserted(s, beg, end, offset), offset, offset + (end - beg)) == s,
{
    assert(block_removed(block_inserted(s, beg, end, offset), offset, offset + (end - beg)) =~= s);
}

/// Removing the bytes that were just inserted gives back the buffer.
pub proof fn lemma_remove_inserted_bytes(s: Seq<u8>, offset: int, size: nat, byte: u8)
    requires
        0 <= offset <= s.len(),
    ensures
        block_removed(bytes_inserted(s, offset, size, byte), offset, offset + size) == s,
{
    assert(block_removed(bytes_inserted(s, offset, size, byte), offset, offset + size) =~= s);
}

/// Reserved for a crossover with another seed; it gives the buffer back.
pub fn cross_over(buf: Vec<u8>) -> (res: Vec<u8>)
    ensures
        res@ == buf@,
{
    buf
}


// ---------------------------------------------------------------------
// Integers written in ASCII
// ---------------------------------------------------------------------

/// Whether the byte is an ASCII digit.
pub fn is_digit(c: u8) -> (r: bool)
    ensures
        r == is_ascii_digit(c),
{
    c >= 48 && c <= 57
}

/// Distance between two positions.
pub open spec fn distance(p: int, q: int) -> int {
    if p >= q {
        p - q
    } else {
        q - p
    }
}

/// `p` holds the digit of `s` nearest to `offset`; of two digits at the same
/// distance, the one after `offset` is nearer.
pub open spec fn is_closest_digit(s: Seq<u8>, offset: int, p: int) -> bool {
    &&& 0 <= p < s.len()
    &&& is_ascii_digit(s[p])
    &&& forall|q: int|
        0 <= q < s.len() && is_ascii_digit(#[trigger] s[q]) ==> distance(p, offset) < distance(
            q,
            offset,
        ) || (distance(p, offset) == distance(q, offset) && q <= p)
}

/// `s` holds some ASCII digit.
pub open spec fn has_digit(s: Seq<u8>) -> bool {
    exists|q: int| 0 <= q < s.len() && is_ascii_digit(#[trigger] s[q])
}

/// Position of the digit nearest to `offset`, if `s` holds any digit.
pub open spec fn closest_digit(s: Seq<u8>, offset: int) -> Option<int> {
    if exists|p: int| is_closest_digit(s, offset, p) {
        Some(choose|p: int| is_closest_digit(s, offset, p))
    } else {
        None
    }
}

/// There is at most one nearest digit.
pub proof fn lemma_closest_digit_unique(s: Seq<u8>, offset: int, p1: int, p2: int)
    requires
        is_closest_digit(s, offset, p1),
        is_closest_digit(s, offset, p2),
    ensures
        p1 == p2,
{
    assert(is_ascii_digit(s[p1]));
    assert(is_ascii_digit(s[p2]));
}

/// Finds the digit nearest to `offset`: `offset` itself when it holds a
/// digit, then positions at growing distance, the one after `offset` first.
pub fn find_close_number(buf: &Vec<u8>, offset: usize) -> (r: Option<usize>)
    requires
        offset < buf@.len(),
    ensures
        match r {
            Some(p) => is_closest_digit(buf@, offset as int, p as int) && closest_digit(
                buf@,
                offset as int,
            ) == Some(p as int),
            None => !has_digit(buf@) && closest_digit(buf@, offset as int) is None,
        },
{
    let ghost s = buf@;
    let len = buf.len();
    if is_digit(buf[offset]) {
        proof {
            assert(is_closest_digit(s, offset as int, offset as int));
            assert forall|p: int| is_closest_digit(s, offset as int, p) implies p == offset by {
                lemma_closest_digit_unique(s, offset as int, p, offset as int);
            }
        }
        return Some(offset);
    }
    let mut i: usize = 0;
    let mut ret: Option<usize> = None;
    while ret.is_none() && (i < len - offset || i <= offset)
        invariant
            s == buf@,
            len == s.len(),
            offset < len,
            i <= len,
            ret is None ==> forall|q: int|
                0 <= q < len && distance(q, offset as int) < i ==> !is_ascii_digit(#[trigger] s[q]),
            ret matches Some(p) ==> is_closest_digit(s, offset as int, p as int),
        decreases len - i + (if ret is None { 1int } else { 0int }),
    {
        if i < len - offset && is_digit(buf[offset + i]) {
            ret = Some(offset + i);
            proof {
                let p = offset + i;
                assert forall|q: int|
                    0 <= q < len && is_ascii_digit(#[trigger] s[q]) implies distance(
                    p as int,
                    offset as int,
                ) < distance(q, offset as int) || (distance(p as int, offset as int) == distance(
                    q,
                    offset as int,
                ) && q <= p) by {}
            }
        } else if i <= offset && is_digit(buf[offset - i]) {
            ret = Some(offset - i);
            proof {
                let p = offset - i;
                assert forall|q: int|
                    0 <= q < len && is_ascii_digit(#[trigger] s[q]) implies distance(
                    p as int,
                    offset as int,
                ) < distance(q, offset as int) || (distance(p as int, offset as int) == distance(
                    q,
                    offset as int,
                ) && q <= p) by {
                    if q == offset + i {
                        assert(!(i < len - offset) || !is_ascii_digit(s[offset + i]));
                    }
                }
            }
        }
        i = i + 1;
    }
    proof {
        match ret {
            Some(p) => {
                assert forall|p2: int| is_closest_digit(s, offset as int, p2) implies p2 == p by {
                    lemma_closest_digit_unique(s, offset as int, p2, p as int);
                }
            },
            None => {
                assert forall|q: int| 0 <= q < len implies !is_ascii_digit(#[trigger] s[q]) by {
                    assert(distance(q, offset as int) < i);
                }
                assert(!(exists|p: int| is_closest_digit(s, offset as int, p)));
            },
        }
    }
    ret
}

/// Start of the run of digits that ends just before position `x` (0 when
/// the run reaches the start of `s`).
pub open spec fn digit_run_start(s: Seq<u8>, x: int) -> int
    decreases x,
{
    if x <= 0 {
        0
    } else if !is_ascii_digit(s[x - 1]) {
        x
    } else {
        digit_run_start(s, x - 1)
    }
}

/// Last position of the run of digits that starts at position `x` (the
/// last position of `s` when the run reaches its end).
pub open spec fn digit_run_last(s: Seq<u8>, x: int) -> int
    decreases s.len() - x,
{
    if x + 1 >= s.len() {
        x
    } else if !is_ascii_digit(s[x + 1]) {
        x
    } else {
        digit_run_last(s, x + 1)
    }
}

/// First position of the number around `offset`: the start of the run of
/// digits before `offset`, one earlier when a `'-'` precedes it. When the
/// run reaches the start of `s`, the scan finds no boundary and the number
/// starts at `offset`.
pub open spec fn number_begin(s: Seq<u8>, offset: int) -> int {
    let r = digit_run_start(s, offset);
    let b = if r == 0 {
        offset
    } else {
        r
    };
    if b > 0 && s[b - 1] == 45 {
        b - 1
    } else {
        b
    }
}

/// Last position of the number around `offset`: the end of the run of
/// digits after `offset`. When the run reaches the end of `s`, the scan
/// finds no boundary and the number ends at `offset`.
pub open spec fn number_end(s: Seq<u8>, offset: int) -> int {
    let r = digit_run_last(s, offset);
    if r == s.len() - 1 {
        offset
    } else {
        r
    }
}

proof fn lemma_digit_run_start(s: Seq<u8>, x: int)
    requires
        0 <= x <= s.len(),
    ensures
        0 <= digit_run_start(s, x) <= x,
        forall|k: int| digit_run_start(s, x) <= k < x ==> is_ascii_digit(#[trigger] s[k]),
    decreases x,
{
    if x > 0 && is_ascii_digit(s[x - 1]) {
        lemma_digit_run_start(s, x - 1);
    }
}

proof fn lemma_digit_run_last(s: Seq<u8>, x: int)
    requires
        0 <= x < s.len(),
    ensures
        x <= digit_run_last(s, x) < s.len(),
        forall|k: int| x < k <= digit_run_last(s, x) ==> is_ascii_digit(#[trigger] s[k]),
    decreases s.len() - x,
{
    if x + 1 < s.len() && is_ascii_digit(s[x + 1]) {
        lemma_digit_run_last(s, x + 1);
    }
}

/// The number around a digit is signed decimal text that covers it.
pub proof fn lemma_number_text(s: Seq<u8>, offset: int)
    requires
        0 <= offset < s.len(),
        is_ascii_digit(s[offset]),
    ensures
        0 <= number_begin(s, offset) <= offset <= number_end(s, offset) < s.len(),
        is_decimal_text(s.subrange(number_begin(s, offset), number_end(s, offset) + 1)),
{
    lemma_digit_run_start(s, offset);
    lemma_digit_run_last(s, offset);
    let r = digit_run_start(s, offset);
    let b0 = if r == 0 {
        offset
    } else {
        r
    };
    let b = number_begin(s, offset);
    let e = number_end(s, offset);
    let t = s.subrange(b, e + 1);
    assert forall|k: int| b0 <= k <= e implies is_ascii_digit(#[trigger] s[k]) by {
        if k < offset {
        } else if k > offset {
        }
    }
    if b == b0 {
        assert forall|i: int| 0 <= i < t.len() implies is_ascii_digit(#[trigger] t[i]) by {
            assert(t[i] == s[b + i]);
        }
    } else {
        assert forall|i: int| 0 <= i < t.drop_first().len() implies is_ascii_digit(
            #[trigger] t.drop_first()[i],
        ) by {
            assert(t.drop_first()[i] == s[b0 + i]);
        }
    }
}

/// Finds the number around `offset`: its first position (at a `'-'` sign
/// if there is one) and its last position. See `number_begin` and
/// `number_end` for how the ends of the buffer are treated.
pub fn find_number_range(buf: &Vec<u8>, offset: usize) -> (r: (usize, usize))
    requires
        offset < buf@.len(),
    ensures
        r.0 == number_begin(buf@, offset as int),
        r.1 == number_end(buf@, offset as int),
{
    let ghost s = buf@;
    let len = buf.len();
    let mut x: usize = offset;
    while x > 0 && is_digit(buf[x - 1])
        invariant
            s == buf@,
            offset < len == s.len(),
            x <= offset,
            digit_run_start(s, x as int) == digit_run_start(s, offset as int),
        decreases x,
    {
        x = x - 1;
    }
    let mut beg: usize = if x == 0 {
        offset
    } else {
        x
    };
    if beg > 0 && buf[beg - 1] == 45 {
        beg = beg - 1;
    }
    let mut y: usize = offset;
    while y + 1 < len && is_digit(buf[y + 1])
        invariant
            s == buf@,
            offset <= y < len == s.len(),
            digit_run_last(s, y as int) == digit_run_last(s, offset as int),
        decreases len - y,
    {
        y = y + 1;
    }
    let end: usize = if y + 1 >= len {
        offset
    } else {
        y
    };
    (beg, end)
}

/// The integer that a change of kind `choice` by `delta` makes of `num`:
/// kind 0 adds `delta + 1`, kind 1 subtracts it (both wrapping around the
/// range of `i64`), any other kind gives `0xffffffff`.
pub open spec fn integer_changed(num: i64, choice: int, delta: int) -> i64 {
    if choice == 0 {
        vstd::wrapping::i64_specs::wrapping_add(num, (delta + 1) as i64)
    } else if choice == 1 {
        vstd::wrapping::i64_specs::wrapping_sub(num, (delta + 1) as i64)
    } else {
        0xffffffff
    }
}

/// Changes `num` by a change of kind `choice` and size `delta`.
pub fn change_integer_by(num: i64, choice: usize, delta: usize) -> (r: i64)
    requires
        choice < 3,
        delta < 30,
    ensures
        r == integer_changed(num, choice as int, delta as int),
{
    let step: i64 = delta as i64 + 1;
    if choice == 0 {
        num.wrapping_add(step)
    } else if choice == 1 {
        num.wrapping_sub(step)
    } else {
        0xffffffff
    }
}

/// What a random change of `num` may give.
pub open spec fn change_integer_outcome(num: i64, r: i64) -> bool {
    exists|choice: int, delta: int|
        0 <= choice < 3 && 0 <= delta < 30 && r == #[trigger] integer_changed(num, choice, delta)
}

/// Draws a kind of change and its size: the size is drawn only for the
/// kinds that add or subtract.
fn draw_change() -> (r: (usize, usize))
    ensures
        r.0 < 3,
        r.1 < 30,
{
    let choice = get_random(3);
    let delta = if choice == 0 || choice == 1 {
        get_random(30)
    } else {
        0
    };
    (choice, delta)
}

/// Changes `num` at random: adds or subtracts a number from 1 to 30, or
/// replaces it by `0xffffffff`.
pub fn change_integer(num: i64) -> (r: i64)
    ensures
        change_integer_outcome(num, r),
{
    let (choice, delta) = draw_change();
    change_integer_by(num, choice, delta)
}

/// The text of the number around digit `p`.
pub open spec fn number_text(s: Seq<u8>, p: int) -> Seq<u8> {
    s.subrange(number_begin(s, p), number_end(s, p) + 1)
}

/// The number nearest to `pick`, if any, fits in an `i64`.
pub open spec fn ascii_number_fits(s: Seq<u8>, pick: int) -> bool {
    match closest_digit(s, pick) {
        Some(p) => fits_i64(decimal_text_value(number_text(s, p))),
        None => true,
    }
}

/// `s` with the number nearest to `pick` replaced by the decimal text of
/// its change of kind `choice` by `delta`; `s` itself when it holds no digit.
pub open spec fn ascii_integer_changed(s: Seq<u8>, pick: int, choice: int, delta: int) -> Seq<u8> {
    match closest_digit(s, pick) {
        Some(p) => s.subrange(0, number_begin(s, p)) + decimal_text(
            integer_changed(decimal_text_value(number_text(s, p)) as i64, choice, delta) as int,
        ) + s.subrange(number_end(s, p) + 1, s.len() as int),
        None => s,
    }
}

/// Locates the number nearest to `pick`: its first and last positions and
/// its value.
fn locate_number(buf: &Vec<u8>, pick: usize) -> (r: Option<(usize, usize, i64)>)
    requires
        pick < buf@.len(),
        ascii_number_fits(buf@, pick as int),
    ensures
        match closest_digit(buf@, pick as int) {
            Some(p) => r == Some(
                (
                    number_begin(buf@, p) as usize,
                    number_end(buf@, p) as usize,
                    decimal_text_value(number_text(buf@, p)) as i64,
                ),
            ) && 0 <= number_begin(buf@, p) <= number_end(buf@, p) < buf@.len(),
            None => r is None,
        },
{
    match find_close_number(buf, pick) {
        None => None,
        Some(offset) => {
            let (beg, end) = find_number_range(buf, offset);
            proof {
                lemma_number_text(buf@, offset as int);
            }
            assert(end < buf.len());
            let text = &buf.as_slice()[beg..end + 1];
            assert(text@ == number_text(buf@, offset as int));
            match parse_decimal_i64(text) {
                Some(num) => Some((beg, end, num)),
                None => None,
            }
        },
    }
}

/// `buf` with the bytes `[beg, end]` replaced by the decimal text of `v`.
fn replace_number(buf: &Vec<u8>, beg: usize, end: usize, v: i64) -> (res: Vec<u8>)
    requires
        beg <= end < buf@.len(),
    ensures
        res@ == buf@.subrange(0, beg as int) + decimal_text(v as int) + buf@.subrange(
            end + 1,
            buf@.len() as int,
        ),
{
    let len = buf.len();
    let mut out: Vec<u8> = Vec::new();
    push_range(&mut out, buf, 0, beg);
    let text = decimal_text_of(v);
    push_range(&mut out, &text, 0, text.len());
    push_range(&mut out, buf, end + 1, len);
    assert(text@.subrange(0, text@.len() as int) =~= text@);
    out
}

/// Replaces the number nearest to position `pick` by its change of kind
/// `choice` by `delta`; leaves a buffer without digits as it is.
pub fn change_ascii_integer_at(buf: Vec<u8>, pick: usize, choice: usize, delta: usize) -> (res: Vec<
    u8,
>)
    requires
        pick < buf@.len(),
        choice < 3,
        delta < 30,
        ascii_number_fits(buf@, pick as int),
    ensures
        res@ == ascii_integer_changed(buf@, pick as int, choice as int, delta as int),
{
    match locate_number(&buf, pick) {
        None => buf,
        Some((beg, end, num)) => {
            let new_num = change_integer_by(num, choice, delta);
            replace_number(&buf, beg, end, new_num)
        },
    }
}

/// Changing the number nearest to `pick` replaces exactly its text, from its
/// first position (the `'-'` sign just before its digits included) to its
/// last digit, by signed decimal text that denotes the changed integer and
/// carries a `'-'` exactly when that integer is negative; the bytes before
/// and after the number stay as they were.
pub proof fn lemma_ascii_integer_replaced(s: Seq<u8>, pick: int, choice: int, delta: int)
    requires
        0 <= pick < s.len(),
        closest_digit(s, pick) is Some,
    ensures
        ({
            let p = closest_digit(s, pick).unwrap();
            let b = number_begin(s, p);
            let e = number_end(s, p);
            let old_value = decimal_text_value(s.subrange(b, e + 1));
            let new_value = integer_changed(old_value as i64, choice, delta);
            let r = ascii_integer_changed(s, pick, choice, delta);
            let tail = s.len() - (e + 1);
            let t = r.subrange(b, r.len() - tail);
            &&& 0 <= b <= p <= e < s.len()
            &&& is_ascii_digit(s[p])
            &&& is_decimal_text(s.subrange(b, e + 1))
            &&& (b > 0 && is_ascii_digit(s[b]) ==> s[b - 1] != 45)
            &&& b + tail < r.len()
            &&& r == s.subrange(0, b) + t + s.subrange(e + 1, s.len() as int)
            &&& is_decimal_text(t)
            &&& decimal_text_value(t) == new_value
            &&& (t[0] == 45 <==> new_value < 0)
        }),
{
    let p = closest_digit(s, pick).unwrap();
    assert(is_closest_digit(s, pick, p));
    lemma_number_text(s, p);
    let b = number_begin(s, p);
    let e = number_end(s, p);
    let old_value = decimal_text_value(s.subrange(b, e + 1));
    let new_value = integer_changed(old_value as i64, choice, delta);
    let r = ascii_integer_changed(s, pick, choice, delta);
    let tail = s.len() - (e + 1);
    let t = r.subrange(b, r.len() - tail);
    let d = decimal_text(new_value as int);
    lemma_decimal_text_roundtrip(new_value as int);
    assert(r == s.subrange(0, b) + d + s.subrange(e + 1, s.len() as int));
    assert(t =~= d);
    assert(r =~= s.subrange(0, b) + t + s.subrange(e + 1, s.len() as int));
    if new_value < 0 {
        assert(d[0] == 45);
    } else {
        lemma_decimal_digits(new_value as nat);
        assert(is_ascii_digit(d[0]));
    }
}

/// Whether the number nearest to `pick` fits in an `i64` (see
/// `ascii_number_fits`).
pub fn ascii_number_fits_at(buf: &Vec<u8>, pick: usize) -> (r: bool)
    requires
        pick < buf@.len(),
    ensures
        r == ascii_number_fits(buf@, pick as int),
{
    match find_close_number(buf, pick) {
        None => true,
        Some(p) => number_fits_at(buf, p),
    }
}

/// What the ASCII integer mutation may give when it picks position `pick`:
/// nothing when the number nearest to it does not fit in an `i64` (parsing
/// it fails), otherwise one of its changes.
pub open spec fn ascii_pick_result(s: Seq<u8>, pick: int, r: Option<Seq<u8>>) -> bool {
    if ascii_number_fits(s, pick) {
        exists|choice: int, delta: int|
            0 <= choice < 3 && 0 <= delta < 30 && r == Some(
                #[trigger] ascii_integer_changed(s, pick, choice, delta),
            )
    } else {
        r is None
    }
}

/// What changing the number nearest to a random position of `s` may give.
pub open spec fn change_ascii_integer_result(s: Seq<u8>, r: Option<Seq<u8>>) -> bool {
    exists|pick: int| 0 <= pick < s.len() && #[trigger] ascii_pick_result(s, pick, r)
}

/// Replaces the number nearest to the drawn position `pick` by its drawn
/// change. When that number does not fit in an `i64`, parsing it fails
/// (`choice` and `delta` are then ignored) and nothing comes back.
pub fn change_ascii_integer_drawn(buf: Vec<u8>, pick: usize, choice: usize, delta: usize) -> (res:
    Option<Vec<u8>>)
    requires
        pick < buf@.len(),
        ascii_number_fits(buf@, pick as int) ==> choice < 3 && delta < 30,
    ensures
        res is None <==> !ascii_number_fits(buf@, pick as int),
        res matches Some(r) ==> r@ == ascii_integer_changed(
            buf@,
            pick as int,
            choice as int,
            delta as int,
        ),
{
    if ascii_number_fits_at(&buf, pick) {
        Some(change_ascii_integer_at(buf, pick, choice, delta))
    } else {
        None
    }
}

/// Replaces the number nearest to a random position by a random change of
/// it; leaves a buffer without digits as it is. When the number picked does
/// not fit in an `i64`, parsing it fails and nothing comes back.
pub fn change_ascii_integer(buf: Vec<u8>) -> (res: Option<Vec<u8>>)
    requires
        buf@.len() > 0,
    ensures
        change_ascii_integer_result(buf@, opt_view(res)),
{
    let ghost s = buf@;
    let pick = get_random(buf.len());
    let (choice, delta) = if ascii_number_fits_at(&buf, pick) {
        draw_change()
    } else {
        (0, 0)
    };
    let res = change_ascii_integer_drawn(buf, pick, choice, delta);
    assert(ascii_pick_result(s, pick as int, opt_view(res)));
    res
}

// ---------------------------------------------------------------------
// Integers written in binary
// ---------------------------------------------------------------------

/// Byte order in which the binary integer mutation reads and writes a
/// field. `Little` takes the first byte as the most significant one and
/// `Big` the last one.
#[derive(PartialEq, Eq, Structural, Clone, Copy, Debug)]
pub enum Endian {
    Big,
    Little,
}

/// The sizes in bytes of the fields that the binary integer mutation treats.
pub open spec fn is_field_size(n: int) -> bool {
    n == 1 || n == 2 || n == 4 || n == 8
}

/// Unsigned value of a field in the given byte order.
pub open spec fn field_value(f: Seq<u8>, endian: Endian) -> nat {
    match endian {
        Endian::Little => be_value(f),
        Endian::Big => le_value(f),
    }
}

/// The `n` low bytes of `x` in the given byte order.
pub open spec fn field_bytes(x: nat, n: nat, endian: Endian) -> Seq<u8> {
    match endian {
        Endian::Little => be_bytes(x, n),
        Endian::Big => le_bytes(x, n),
    }
}

/// The integer that a field holds: its bytes as a two's complement `i64`
/// (a field shorter than eight bytes is never negative).
pub open spec fn field_integer(s: Seq<u8>, offset: int, size: int, endian: Endian) -> i64 {
    signed_of(field_value(s.subrange(offset, offset + size), endian)) as i64
}

/// `s` with the field of `size` bytes at `offset` replaced by the low bytes
/// of the change of kind `choice` by `delta` of the integer it holds.
pub open spec fn binary_integer_changed(
    s: Seq<u8>,
    size: int,
    endian: Endian,
    offset: int,
    choice: int,
    delta: int,
) -> Seq<u8> {
    let num = field_integer(s, offset, size, endian);
    s.subrange(0, offset) + field_bytes(
        unsigned_of(integer_changed(num, choice, delta)),
        size as nat,
        endian,
    ) + s.subrange(offset + size, s.len() as int)
}

/// Reads the field of `size` bytes at `offset` as an integer.
fn read_field(buf: &Vec<u8>, offset: usize, size: usize, endian: Endian) -> (r: i64)
    requires
        1 <= size <= 8,
        offset + size <= buf@.len(),
    ensures
        r == signed_of(field_value(buf@.subrange(offset as int, offset + size), endian)),
{
    let ghost f = buf@.subrange(offset as int, offset + size);
    let n = buf.len();
    let mut raw: u64 = 0;
    match endian {
        Endian::Little => {
            let mut i: usize = 0;
            while i < size
                invariant
                    i <= size <= 8,
                    offset + size <= buf@.len(),
                    n == buf@.len(),
                    f == buf@.subrange(offset as int, offset + size),
                    raw == be_value(f.subrange(0, i as int)),
                decreases size - i,
            {
                proof {
                    lemma_be_value_bound(f.subrange(0, i as int));
                    lemma_pow256_small(i as nat);
                }
                raw = raw * 256 + buf[offset + i] as u64;
                assert(f.subrange(0, i + 1).drop_last() =~= f.subrange(0, i as int));
                i = i + 1;
            }
            assert(f.subrange(0, size as int) =~= f);
        },
        Endian::Big => {
            let mut i: usize = size;
            assert(f.subrange(size as int, size as int) =~= Seq::<u8>::empty());
            while i > 0
                invariant
                    i <= size <= 8,
                    offset + size <= buf@.len(),
                    n == buf@.len(),
                    f == buf@.subrange(offset as int, offset + size),
                    raw == le_value(f.subrange(i as int, size as int)),
                decreases i,
            {
                proof {
                    lemma_le_value_bound(f.subrange(i as int, size as int));
                    lemma_pow256_small((size - i) as nat);
                }
                raw = raw * 256 + buf[offset + i - 1] as u64;
                assert(f.subrange(i - 1, size as int).drop_first() =~= f.subrange(
                    i as int,
                    size as int,
                ));
                i = i - 1;
            }
            assert(f.subrange(0, size as int) =~= f);
        },
    }
    if raw <= 0x7fff_ffff_ffff_ffff {
        raw as i64
    } else {
        -((u64::MAX - raw) as i64) - 1
    }
}

/// Writes the low `size` bytes of `v` (as two's complement bits) into the
/// field at `offset`.
fn write_field(buf: Vec<u8>, offset: usize, size: usize, endian: Endian, v: i64) -> (res: Vec<u8>)
    requires
        1 <= size <= 8,
        offset + size <= buf@.len(),
    ensures
        res@ == buf@.subrange(0, offset as int) + field_bytes(unsigned_of(v), size as nat, endian)
            + buf@.subrange(offset + size, buf@.len() as int),
{
    let w: u64 = if v >= 0 {
        v as u64
    } else {
        u64::MAX - ((-(v + 1)) as u64)
    };
    assert(w == unsigned_of(v));
    let ghost s = buf@;
    let n = buf.len();
    let mut buf = buf;
    let mut cur: u64 = w;
    match endian {
        Endian::Little => {
            let mut m: usize = size;
            assert(buf@.subrange(offset + size, offset + size) =~= Seq::<u8>::empty());
            while m > 0
                invariant
                    m <= size <= 8,
                    offset + size <= s.len(),
                    n == s.len(),
                    buf@.len() == s.len(),
                    forall|j: int| 0 <= j < offset + m ==> buf@[j] == s[j],
                    forall|j: int| offset + size <= j < s.len() ==> buf@[j] == s[j],
                    be_bytes(w as nat, size as nat) == be_bytes(cur as nat, m as nat)
                        + buf@.subrange(offset + m, offset + size),
                decreases m,
            {
                let ghost old_tail = buf@.subrange(offset + m, offset + size);
                buf.set(offset + m - 1, (cur % 256) as u8);
                assert(buf@.subrange(offset + m - 1, offset + size) =~= seq![(cur % 256) as u8]
                    + old_tail);
                assert(be_bytes(cur as nat, m as nat) == be_bytes(
                    (cur / 256) as nat,
                    (m - 1) as nat,
                ).push((cur % 256) as u8));
                assert(be_bytes(w as nat, size as nat) =~= be_bytes(
                    (cur / 256) as nat,
                    (m - 1) as nat,
                ) + buf@.subrange(offset + m - 1, offset + size));
                cur = cur / 256;
                m = m - 1;
            }
            assert(be_bytes(cur as nat, 0) =~= Seq::<u8>::empty());
            assert(buf@ =~= s.subrange(0, offset as int) + be_bytes(w as nat, size as nat)
                + s.subrange(offset + size, s.len() as int));
        },
        Endian::Big => {
            let mut k: usize = 0;
            while k < size
                invariant
                    k <= size <= 8,
                    offset + size <= s.len(),
                    n == s.len(),
                    buf@.len() == s.len(),
                    forall|j: int| 0 <= j < offset ==> buf@[j] == s[j],
                    forall|j: int| offset + k <= j < s.len() ==> buf@[j] == s[j],
                    le_bytes(w as nat, size as nat) == buf@.subrange(offset as int, offset + k)
                        + le_bytes(cur as nat, (size - k) as nat),
                decreases size - k,
            {
                let ghost old_head = buf@.subrange(offset as int, offset + k);
                buf.set(offset + k, (cur % 256) as u8);
                assert(buf@.subrange(offset as int, offset + k + 1) =~= old_head.push(
                    (cur % 256) as u8,
                ));
                assert(le_bytes(cur as nat, (size - k) as nat) == seq![(cur % 256) as u8]
                    + le_bytes((cur / 256) as nat, (size - k - 1) as nat));
                assert(le_bytes(w as nat, size as nat) =~= buf@.subrange(
                    offset as int,
                    offset + k + 1,
                ) + le_bytes((cur / 256) as nat, (size - k - 1) as nat));
                cur = cur / 256;
                k = k + 1;
            }
            assert(le_bytes(cur as nat, 0) =~= Seq::<u8>::empty());
            assert(buf@ =~= s.subrange(0, offset as int) + le_bytes(w as nat, size as nat)
                + s.subrange(offset + size, s.len() as int));
        },
    }
    buf
}

/// Replaces the integer held by the field of `size` bytes at `offset` by
/// its change of kind `choice` by `delta`.
pub fn change_binary_integer_at(
    buf: Vec<u8>,
    size: usize,
    endian: Endian,
    offset: usize,
    choice: usize,
    delta: usize,
) -> (res: Vec<u8>)
    requires
        is_field_size(size as int),
        offset + size <= buf@.len(),
        choice < 3,
        delta < 30,
    ensures
        res@ == binary_integer_changed(
            buf@,
            size as int,
            endian,
            offset as int,
            choice as int,
            delta as int,
        ),
{
    let num = read_field(&buf, offset, size, endian);
    let new_num = change_integer_by(num, choice, delta);
    write_field(buf, offset, size, endian, new_num)
}

/// What the binary integer mutation may give once it has drawn the field's
/// size and byte order: nothing when the buffer is shorter than the field
/// (no place can be drawn for it), otherwise a change of the integer in a
/// field at some place.
pub open spec fn binary_field_result(s: Seq<u8>, size: int, endian: Endian, r: Option<Seq<u8>>) -> bool {
    if s.len() < size {
        r is None
    } else {
        exists|offset: int, choice: int, delta: int|
            0 <= offset <= s.len() - size && 0 <= choice < 3 && 0 <= delta < 30 && r == Some(
                #[trigger] binary_integer_changed(s, size, endian, offset, choice, delta),
            )
    }
}

/// What changing the integer in a random field of `s` may give.
pub open spec fn change_binary_integer_result(s: Seq<u8>, r: Option<Seq<u8>>) -> bool {
    exists|size: int, endian: Endian|
        is_field_size(size) && #[trigger] binary_field_result(s, size, endian, r)
}

/// Replaces the integer held by the drawn field (size, byte order, place)
/// by its drawn change. When the buffer is shorter than the field, no place
/// can be drawn for it (`offset`, `choice` and `delta` are then ignored) and
/// nothing comes back.
pub fn change_binary_integer_drawn(
    buf: Vec<u8>,
    size: usize,
    endian: Endian,
    offset: usize,
    choice: usize,
    delta: usize,
) -> (res: Option<Vec<u8>>)
    requires
        is_field_size(size as int),
        size <= buf@.len() ==> offset + size <= buf@.len() && choice < 3 && delta < 30,
    ensures
        res is None <==> buf@.len() < size,
        res matches Some(r) ==> r@ == binary_integer_changed(
            buf@,
            size as int,
            endian,
            offset as int,
            choice as int,
            delta as int,
        ),
{
    if buf.len() < size {
        None
    } else {
        Some(change_binary_integer_at(buf, size, endian, offset, choice, delta))
    }
}

/// Replaces the integer held by a field of random size (1, 2, 4 or 8
/// bytes), byte order and place by a random change of it. When the buffer
/// is shorter than the size drawn, nothing comes back.
pub fn change_binary_integer(buf: Vec<u8>) -> (res: Option<Vec<u8>>)
    ensures
        change_binary_integer_result(buf@, opt_view(res)),
{
    let ghost s = buf@;
    let size: usize = match get_random(4) {
        0 => 1,
        1 => 2,
        2 => 4,
        _ => 8,
    };
    let endian = if get_random(2) == 0 {
        Endian::Little
    } else {
        Endian::Big
    };
    let (offset, choice, delta) = if buf.len() < size {
        (0, 0, 0)
    } else {
        let offset = get_random(buf.len() - size + 1);
        let (choice, delta) = draw_change();
        (offset, choice, delta)
    };
    let res = change_binary_integer_drawn(buf, size, endian, offset, choice, delta);
    assert(binary_field_result(s, size as int, endian, opt_view(res)));
    res
}

/// Reading back the field that the binary integer mutation wrote gives the
/// new integer's bits, cut to the field's size.
pub proof fn lemma_binary_integer_readback(
    s: Seq<u8>,
    size: int,
    endian: Endian,
    offset: int,
    choice: int,
    delta: int,
)
    requires
        is_field_size(size),
        0 <= offset,
        offset + size <= s.len(),
    ensures
        ({
            let r = binary_integer_changed(s, size, endian, offset, choice, delta);
            let new_num = integer_changed(field_integer(s, offset, size, endian), choice, delta);
            &&& r.len() == s.len()
            &&& field_value(r.subrange(offset, offset + size), endian) == unsigned_of(new_num)
                % pow256(size as nat)
        }),
{
    let new_num = integer_changed(field_integer(s, offset, size, endian), choice, delta);
    let x = unsigned_of(new_num);
    let r = binary_integer_changed(s, size, endian, offset, choice, delta);
    lemma_be_roundtrip(x, size as nat);
    lemma_le_roundtrip(x, size as nat);
    assert(r.subrange(offset, offset + size) =~= field_bytes(x, size as nat, endian));
}

/// The byte order of a field does not depend on its size. In `Big` order the
/// first byte is the least significant one and each later byte counts 256
/// times more than the one before it; in `Little` order the last byte is the
/// least significant one.
pub proof fn lemma_field_byte_order(f: Seq<u8>)
    ensures
        field_value(f, Endian::Big) == le_value(f),
        field_value(f, Endian::Little) == be_value(f),
        f.len() == 0 ==> field_value(f, Endian::Big) == 0 && field_value(f, Endian::Little) == 0,
        f.len() > 0 ==> field_value(f, Endian::Big) == f[0] + 256 * field_value(
            f.drop_first(),
            Endian::Big,
        ),
        f.len() > 0 ==> field_value(f, Endian::Little) == 256 * field_value(
            f.drop_last(),
            Endian::Little,
        ) + f.last(),
{
}

/// Writing a field uses the same byte order as reading one, whatever its
/// size: in `Big` order the low byte of the value comes first, in `Little`
/// order it comes last, and the other bytes are those of the value divided
/// by 256.
pub proof fn lemma_field_bytes_order(x: nat, n: nat)
    ensures
        field_bytes(x, n, Endian::Big) == le_bytes(x, n),
        field_bytes(x, n, Endian::Little) == be_bytes(x, n),
        n == 0 ==> field_bytes(x, n, Endian::Big) == Seq::<u8>::empty() && field_bytes(
            x,
            n,
            Endian::Little,
        ) == Seq::<u8>::empty(),
        n > 0 ==> field_bytes(x, n, Endian::Big) == seq![(x % 256) as u8] + field_bytes(
            x / 256,
            (n - 1) as nat,
            Endian::Big,
        ),
        n > 0 ==> field_bytes(x, n, Endian::Little) == field_bytes(
            x / 256,
            (n - 1) as nat,
            Endian::Little,
        ).push((x % 256) as u8),
{
}

// ---------------------------------------------------------------------
// Shuffles
// ---------------------------------------------------------------------

/// What shuffling a random block of `s` may give.
pub open spec fn shuffle_block_outcome(s: Seq<u8>, r: Seq<u8>) -> bool {
    exists|beg: int, end: int, p: Seq<int>|
        0 <= beg < end <= s.len() && #[trigger] block_permuted(s, r, beg, end, p)
}

/// Shuffles the bytes of a random block of the buffer.
pub fn shuffle_block(buf: Vec<u8>) -> (res: Vec<u8>)
    requires
        buf@.len() > 0,
    ensures
        shuffle_block_outcome(buf@, res@),
{
    let mut buf = buf;
    let (beg, end) = select_block(&buf);
    shuffle_range(&mut buf, beg, end);
    buf
}

/// The bytes that separate tokens: newline, space and tab.
pub open spec fn is_delimiter(c: u8) -> bool {
    c == 10 || c == 32 || c == 9
}

/// Whether the byte separates tokens.
pub fn is_delimiter_byte(c: u8) -> (r: bool)
    ensures
        r == is_delimiter(c),
{
    c == 10 || c == 32 || c == 9
}

/// The bytes of `s` after its last delimiter.
pub open spec fn pending_token(s: Seq<u8>) -> Seq<u8>
    decreases s.len(),
{
    if s.len() == 0 {
        Seq::empty()
    } else if is_delimiter(s.last()) {
        Seq::empty()
    } else {
        pending_token(s.drop_last()).push(s.last())
    }
}

/// The tokens of `s`: the runs of bytes that each end at a delimiter, in
/// order, without the delimiters. What follows the last delimiter is no
/// token.
pub open spec fn tokens_of(s: Seq<u8>) -> Seq<Seq<u8>>
    decreases s.len(),
{
    if s.len() == 0 {
        Seq::empty()
    } else if is_delimiter(s.last()) {
        tokens_of(s.drop_last()).push(pending_token(s.drop_last()))
    } else {
        tokens_of(s.drop_last())
    }
}

/// Number of delimiters in `s`.
pub open spec fn count_delimiters(s: Seq<u8>) -> nat
    decreases s.len(),
{
    if s.len() == 0 {
        0
    } else {
        count_delimiters(s.drop_last()) + if is_delimiter(s.last()) {
            1nat
        } else {
            0nat
        }
    }
}

/// `s` holds a delimiter.
pub open spec fn has_delimiter(s: Seq<u8>) -> bool {
    exists|i: int| 0 <= i < s.len() && is_delimiter(#[trigger] s[i])
}

/// No byte of `t` is a delimiter.
pub open spec fn no_delimiter(t: Seq<u8>) -> bool {
    forall|i: int| 0 <= i < t.len() ==> !is_delimiter(#[trigger] t[i])
}

/// There are as many tokens as delimiters, a token holds no delimiter, and
/// there is a token exactly when there is a delimiter.
pub proof fn lemma_tokens_of(s: Seq<u8>)
    ensures
        tokens_of(s).len() == count_delimiters(s),
        forall|k: int| 0 <= k < tokens_of(s).len() ==> no_delimiter(#[trigger] tokens_of(s)[k]),
        no_delimiter(pending_token(s)),
        has_delimiter(s) <==> tokens_of(s).len() > 0,
    decreases s.len(),
{
    if s.len() > 0 {
        let t = s.drop_last();
        lemma_tokens_of(t);
        if has_delimiter(s) && !is_delimiter(s.last()) {
            let i = choose|i: int| 0 <= i < s.len() && is_delimiter(#[trigger] s[i]);
            assert(t[i] == s[i]);
        }
        if has_delimiter(t) {
            let i = choose|i: int| 0 <= i < t.len() && is_delimiter(#[trigger] t[i]);
            assert(s[i] == t[i]);
        }
        if is_delimiter(s.last()) {
            assert(is_delimiter(s[s.len() - 1]));
        } else {
            let p = pending_token(t).push(s.last());
            assert forall|i: int| 0 <= i < p.len() implies !is_delimiter(#[trigger] p[i]) by {
                if i < p.len() - 1 {
                    assert(p[i] == pending_token(t)[i]);
                }
            }
        }
    }
}

/// The bytes of `s` that are not delimiters, in order.
pub open spec fn non_delimiter_bytes(s: Seq<u8>) -> Seq<u8> {
    s.filter(|c: u8| !is_delimiter(c))
}

/// Splitting into tokens loses no byte but the delimiters: the tokens of `s`
/// joined together, followed by the bytes after its last delimiter, are the
/// bytes of `s` that are not delimiters, in their order.
pub proof fn lemma_tokens_keep_bytes(s: Seq<u8>)
    ensures
        tokens_of(s).flatten_alt() + pending_token(s) == non_delimiter_bytes(s),
    decreases s.len(),
{
    reveal(Seq::filter);
    if s.len() == 0 {
        assert(tokens_of(s).flatten_alt() + pending_token(s) =~= Seq::<u8>::empty());
    } else {
        let t = s.drop_last();
        lemma_tokens_keep_bytes(t);
        if is_delimiter(s.last()) {
            let ts = tokens_of(t).push(pending_token(t));
            assert(ts.drop_last() =~= tokens_of(t));
            assert(ts.flatten_alt() == tokens_of(t).flatten_alt() + pending_token(t));
            assert(non_delimiter_bytes(s) == non_delimiter_bytes(t));
            assert(tokens_of(s).flatten_alt() + pending_token(s) =~= tokens_of(t).flatten_alt()
                + pending_token(t));
        } else {
            assert(non_delimiter_bytes(s) == non_delimiter_bytes(t).push(s.last()));
            assert(tokens_of(s).flatten_alt() + pending_token(s) =~= (tokens_of(t).flatten_alt()
                + pending_token(t)).push(s.last()));
        }
    }
}

/// The delimiters of `s`, in order.
pub open spec fn delimiters_of(s: Seq<u8>) -> Seq<u8> {
    s.filter(|c: u8| is_delimiter(c))
}

/// Each token of `s` followed by the delimiter that ends it.
pub open spec fn ended_tokens(s: Seq<u8>) -> Seq<Seq<u8>> {
    Seq::new(tokens_of(s).len(), |k: int| tokens_of(s)[k].push(delimiters_of(s)[k]))
}

/// The tokens of `s` cut it exactly at its delimiters: the `k`-th token ends
/// at the `k`-th delimiter, and the tokens, each followed by the delimiter
/// that ends it, then the bytes after the last delimiter, give `s` back.
pub proof fn lemma_tokens_rebuild(s: Seq<u8>)
    ensures
        tokens_of(s).len() == delimiters_of(s).len(),
        ended_tokens(s).flatten_alt() + pending_token(s) == s,
    decreases s.len(),
{
    reveal(Seq::filter);
    lemma_tokens_of(s);
    if s.len() == 0 {
        assert(ended_tokens(s).flatten_alt() + pending_token(s) =~= s);
    } else {
        let t = s.drop_last();
        let c = s.last();
        lemma_tokens_rebuild(t);
        lemma_tokens_of(t);
        assert(t.push(c) =~= s);
        if is_delimiter(c) {
            assert(delimiters_of(s) == delimiters_of(t).push(c));
            let e = ended_tokens(s);
            assert(e.drop_last() =~= ended_tokens(t));
            assert(e.last() == pending_token(t).push(c));
            assert(e.flatten_alt() == ended_tokens(t).flatten_alt() + pending_token(t).push(c));
            assert(ended_tokens(s).flatten_alt() + pending_token(s) =~= (ended_tokens(
                t,
            ).flatten_alt() + pending_token(t)).push(c));
        } else {
            assert(delimiters_of(s) == delimiters_of(t));
            assert(ended_tokens(s) =~= ended_tokens(t));
            assert(ended_tokens(s).flatten_alt() + pending_token(s) =~= (ended_tokens(
                t,
            ).flatten_alt() + pending_token(t)).push(c));
        }
    }
}

/// Splits the buffer into its tokens (see `tokens_of`).
pub fn split_tokens(buf: Vec<u8>) -> (tokens: Vec<Vec<u8>>)
    ensures
        tokens.deep_view() == tokens_of(buf@),
{
    let mut tokens: Vec<Vec<u8>> = Vec::new();
    let mut token: Vec<u8> = Vec::new();
    let mut i: usize = 0;
    assert(tokens.deep_view() =~= tokens_of(buf@.subrange(0, 0)));
    assert(token@ =~= pending_token(buf@.subrange(0, 0)));
    while i < buf.len()
        invariant
            i <= buf@.len(),
            tokens.deep_view() == tokens_of(buf@.subrange(0, i as int)),
            token@ == pending_token(buf@.subrange(0, i as int)),
        decreases buf@.len() - i,
    {
        let c = buf[i];
        let ghost pre = buf@.subrange(0, i as int);
        assert(buf@.subrange(0, i + 1).drop_last() =~= pre);
        assert(buf@.subrange(0, i + 1).last() == c);
        if is_delimiter_byte(c) {
            let ghost old_tokens = tokens.deep_view();
            assert(token.deep_view() =~= token@);
            tokens.push(token);
            assert(tokens.deep_view() =~= old_tokens.push(pending_token(pre)));
            token = Vec::new();
            assert(token@ =~= pending_token(buf@.subrange(0, i + 1)));
        } else {
            token.push(c);
        }
        i = i + 1;
    }
    assert(buf@.subrange(0, buf@.len() as int) =~= buf@);
    tokens
}

/// What shuffling a random block of the tokens of `s` and joining them
/// (without delimiters) may give.
pub open spec fn shuffle_ascii_block_outcome(s: Seq<u8>, r: Seq<u8>) -> bool {
    exists|ts: Seq<Seq<u8>>, beg: int, end: int, p: Seq<int>|
        0 <= beg < end <= tokens_of(s).len() && #[trigger] block_permuted(
            tokens_of(s),
            ts,
            beg,
            end,
            p,
        ) && r == ts.flatten_alt()
}

/// Splits the buffer into tokens, shuffles a random block of them and joins
/// them all again without delimiters. The buffer must hold a delimiter, or
/// there is no token to pick.
pub fn shuffle_ascii_block(buf: Vec<u8>) -> (res: Vec<u8>)
    requires
        has_delimiter(buf@),
    ensures
        shuffle_ascii_block_outcome(buf@, res@),
{
    let ghost s = buf@;
    proof {
        lemma_tokens_of(s);
    }
    let mut tokens = split_tokens(buf);
    let ghost before = tokens@;
    let (beg, end) = select_block(&tokens);
    shuffle_range(&mut tokens, beg, end);
    let ghost ts = tokens.deep_view();
    proof {
        let p = choose|p: Seq<int>| block_permuted(before, tokens@, beg as int, end as int, p);
        assert(block_permuted(tokens_of(s), ts, beg as int, end as int, p));
    }
    let mut out: Vec<u8> = Vec::new();
    let mut k: usize = 0;
    assert(ts.subrange(0, 0).flatten_alt() =~= Seq::<u8>::empty());
    while k < tokens.len()
        invariant
            k <= tokens@.len(),
            ts == tokens.deep_view(),
            out@ == ts.subrange(0, k as int).flatten_alt(),
        decreases tokens@.len() - k,
    {
        let t: &Vec<u8> = &tokens[k];
        let n = t.len();
        push_range(&mut out, t, 0, n);
        proof {
            assert(t@.subrange(0, n as int) =~= t@);
            assert(ts[k as int] =~= t@);
            assert(ts.subrange(0, k + 1).drop_last() =~= ts.subrange(0, k as int));
        }
        k = k + 1;
    }
    assert(ts.subrange(0, ts.len() as int) =~= ts);
    out
}

// ---------------------------------------------------------------------
// One random mutation
// ---------------------------------------------------------------------

/// Whether the number around digit `p` fits in an `i64`.
fn number_fits_at(buf: &Vec<u8>, p: usize) -> (r: bool)
    requires
        p < buf@.len(),
        is_ascii_digit(buf@[p as int]),
    ensures
        r == fits_i64(decimal_text_value(number_text(buf@, p as int))),
{
    let (beg, end) = find_number_range(buf, p);
    proof {
        lemma_number_text(buf@, p as int);
    }
    assert(end < buf.len());
    let text = &buf.as_slice()[beg..end + 1];
    assert(text@ == number_text(buf@, p as int));
    parse_decimal_i64(text).is_some()
}

/// Whether the buffer holds a delimiter.
pub fn holds_delimiter(buf: &Vec<u8>) -> (r: bool)
    ensures
        r == has_delimiter(buf@),
{
    let mut i: usize = 0;
    while i < buf.len()
        invariant
            i <= buf@.len(),
            forall|j: int| 0 <= j < i ==> !is_delimiter(#[trigger] buf@[j]),
        decreases buf@.len() - i,
    {
        if is_delimiter_byte(buf[i]) {
            return true;
        }
        i = i + 1;
    }
    false
}

/// The buffers on which mutation number `kind` can always be carried out
/// past its first draws: the token shuffle needs a delimiter, the binary
/// integer change and the crossover need nothing, every other mutation a
/// byte.
pub open spec fn kind_precondition(kind: int, s: Seq<u8>) -> bool {
    if kind == 5 {
        has_delimiter(s)
    } else if kind == 3 || kind == 11 {
        true
    } else {
        s.len() > 0
    }
}

/// Whether mutation number `kind` can be applied to the buffer (see
/// `kind_precondition`).
pub fn can_mutate_kind(buf: &Vec<u8>, kind: usize) -> (r: bool)
    ensures
        r == kind_precondition(kind as int, buf@),
{
    if kind == 5 {
        holds_delimiter(buf)
    } else if kind == 3 || kind == 11 {
        true
    } else {
        buf.len() > 0
    }
}

/// The view of a buffer that may be missing.
pub open spec fn opt_view(r: Option<Vec<u8>>) -> Option<Seq<u8>> {
    match r {
        Some(v) => Some(v@),
        None => None,
    }
}

/// What mutation number `kind` may make of `s`, in the order of `mutate`:
/// bit flip, byte change, ASCII integer change, binary integer change,
/// block shuffle, token shuffle, block copy over, block copy insertion,
/// constant block over, constant block insertion, block removal,
/// crossover. `None` stands for a draw on which the mutation cannot be
/// carried out.
pub open spec fn mutation_outcome(kind: int, s: Seq<u8>, r: Option<Seq<u8>>) -> bool {
    if kind == 2 {
        change_ascii_integer_result(s, r)
    } else if kind == 3 {
        change_binary_integer_result(s, r)
    } else if kind == 6 {
        overwrite_copy_block_result(s, r)
    } else {
        r matches Some(x) && if kind == 0 {
            flip_bit_outcome(s, x)
        } else if kind == 1 {
            change_byte_outcome(s, x)
        } else if kind == 4 {
            shuffle_block_outcome(s, x)
        } else if kind == 5 {
            shuffle_ascii_block_outcome(s, x)
        } else if kind == 7 {
            insert_copy_block_outcome(s, x)
        } else if kind == 8 {
            overwrite_const_block_outcome(s, x)
        } else if kind == 9 {
            insert_const_block_outcome(s, x)
        } else if kind == 10 {
            remove_block_outcome(s, x)
        } else if kind == 11 {
            x == s
        } else {
            false
        }
    }
}

/// What `mutate` may give once it has drawn mutation number `kind`:
/// nothing when that mutation cannot be carried out on `s` at all.
pub open spec fn mutation_result(kind: int, s: Seq<u8>, r: Option<Seq<u8>>) -> bool {
    if kind_precondition(kind, s) {
        mutation_outcome(kind, s, r)
    } else {
        r is None
    }
}

/// Applies mutation number `kind` to the buffer; nothing comes back when
/// that mutation cannot be carried out on it at all (see
/// `kind_precondition`).
pub fn mutate_kind(buf: Vec<u8>, kind: usize) -> (res: Option<Vec<u8>>)
    requires
        kind < 12,
        buf@.len() < usize::MAX,
        buf@.len() * 8 <= usize::MAX,
    ensures
        mutation_result(kind as int, buf@, opt_view(res)),
{
    if !can_mutate_kind(&buf, kind) {
        return None;
    }
    match kind {
        0 => Some(flip_bit(buf)),
        1 => Some(change_byte(buf)),
        2 => change_ascii_integer(buf),
        3 => change_binary_integer(buf),
        4 => Some(shuffle_block(buf)),
        5 => Some(shuffle_ascii_block(buf)),
        6 => overwrite_copy_block(buf),
        7 => Some(insert_copy_block(buf)),
        8 => Some(overwrite_const_block(buf)),
        9 => Some(insert_const_block(buf)),
        10 => Some(remove_block(buf)),
        _ => Some(cross_over(buf)),
    }
}

/// Applies one of the twelve mutations, chosen at random, to a copy of the
/// buffer. Nothing comes back where the mutation drawn cannot be carried
/// out on the buffer or on the draws it makes.
pub fn mutate(buf: &Vec<u8>) -> (res: Option<Vec<u8>>)
    requires
        buf@.len() < usize::MAX,
        buf@.len() * 8 <= usize::MAX,
    ensures
        exists|kind: int| 0 <= kind < 12 && #[trigger] mutation_result(kind, buf@, opt_view(res)),
{
    let mut new_buf: Vec<u8> = Vec::new();
    push_range(&mut new_buf, buf, 0, buf.len());
    assert(new_buf@ =~= buf@);
    let kind = get_random(12);
    let res = mutate_kind(new_buf, kind);
    assert(mutation_result(kind as int, buf@, opt_view(res)));
    res
}

} // verus!
