//! How a byte range of the backing store lies on its sectors, and what the sectors
//! hold in plaintext.

use crate::arith::{
    lemma_quotient_at_least, lemma_quotient_below, lemma_quotient_remainder, lemma_split,
};
use crate::store::overwritten;
use crate::xts::XtsEngine;
use vstd::prelude::*;

verus! {

/// The end of the last sector that the `len` bytes from `start` on touch. With no
/// bytes, no sector is touched.
pub open spec fn span_end(start: int, len: int, sector_len: int) -> int {
    if len <= 0 {
        start
    } else {
        ((start + len - 1) / sector_len + 1) * sector_len
    }
}

/// Whether the sector of the byte at `address` lies in a store of `store_len` bytes
/// with all its bytes.
pub open spec fn held(store_len: int, sector_len: int, address: int) -> bool {
    0 <= address && (address / sector_len + 1) * sector_len <= store_len
}

/// The plaintext of the sector with the given index: the sector's bytes decrypted as
/// one data unit whose tweak index is the sector's index in the backing store.
pub open spec fn sector_plaintext(
    engine: XtsEngine,
    contents: Seq<u8>,
    sector_len: int,
    index: int,
) -> Seq<u8> {
    engine.decrypted(
        contents.subrange(index * sector_len, index * sector_len + sector_len),
        index as u64,
    )
}

/// The plaintext of the byte at `address` of the backing store.
pub open spec fn plain_byte(
    engine: XtsEngine,
    contents: Seq<u8>,
    sector_len: int,
    address: int,
) -> u8 {
    sector_plaintext(engine, contents, sector_len, address / sector_len)[address % sector_len]
}

/// The plaintext of a data area of `size` bytes that starts at `offset` in the
/// backing store.
pub open spec fn data_plaintext(
    engine: XtsEngine,
    contents: Seq<u8>,
    sector_len: int,
    offset: int,
    size: int,
) -> Seq<u8> {
    Seq::new(size as nat, |at: int| plain_byte(engine, contents, sector_len, offset + at))
}

/// How many of `wanted` bytes a transfer at `position` handles in an area of `size`
/// bytes: all of them, or as many as the area has left.
pub open spec fn transfer(size: int, position: int, wanted: int) -> int {
    if wanted <= size - position {
        wanted
    } else {
        size - position
    }
}

/// What a read of `wanted` bytes at `position` delivers from an area whose plaintext
/// is `plain`.
pub open spec fn delivered(plain: Seq<u8>, position: int, wanted: int) -> Seq<u8> {
    plain.subrange(position, position + transfer(plain.len() as int, position, wanted))
}

/// The plaintext of an area after `data` was written at `position`, as far as the
/// area has room for it.
pub open spec fn rewritten(plain: Seq<u8>, position: int, data: Seq<u8>) -> Seq<u8> {
    overwritten(
        plain,
        position,
        data.subrange(0, transfer(plain.len() as int, position, data.len() as int)),
    )
}

/// The plaintext at `address` once `data` has been written at `start`: the byte of
/// `data` that landed there, or what the store held before.
pub open spec fn patched_byte(
    engine: XtsEngine,
    contents: Seq<u8>,
    sector_len: int,
    start: int,
    data: Seq<u8>,
    address: int,
) -> u8 {
    if start <= address < start + data.len() {
        data[address - start]
    } else {
        plain_byte(engine, contents, sector_len, address)
    }
}

/// The plaintext of sector `index` once `data` has been written at `start`.
pub open spec fn patched_sector(
    engine: XtsEngine,
    contents: Seq<u8>,
    sector_len: int,
    start: int,
    data: Seq<u8>,
    index: int,
) -> Seq<u8> {
    Seq::new(
        sector_len as nat,
        |within: int|
            patched_byte(engine, contents, sector_len, start, data, index * sector_len + within),
    )
}

/// Whether `address` lies in one of the sectors that the `len` bytes from `start` on
/// touch.
pub open spec fn touched(start: int, len: int, sector_len: int, address: int) -> bool {
    len > 0 && (start / sector_len) * sector_len <= address < span_end(start, len, sector_len)
}

/// Two stores that agree on the bytes of a sector agree on its plaintext.
pub proof fn lemma_sector_unchanged(
    engine: XtsEngine,
    before: Seq<u8>,
    after: Seq<u8>,
    sector_len: int,
    index: int,
)
    requires
        0 < sector_len,
        0 <= index,
        index * sector_len + sector_len <= before.len() == after.len(),
        forall|a: int|
            index * sector_len <= a < index * sector_len + sector_len ==> after[a] == before[a],
    ensures
        sector_plaintext(engine, after, sector_len, index) == sector_plaintext(
            engine,
            before,
            sector_len,
            index,
        ),
{
    assert(0 <= index * sector_len) by (nonlinear_arith)
        requires
            0 <= index,
            0 < sector_len,
    ;
    assert(after.subrange(index * sector_len, index * sector_len + sector_len) =~= before.subrange(
        index * sector_len,
        index * sector_len + sector_len,
    ));
}

/// The byte at offset `within` of sector `index` is the byte at address
/// `index * sector_len + within`.
pub proof fn lemma_plain_byte_in_sector(
    engine: XtsEngine,
    contents: Seq<u8>,
    sector_len: int,
    index: int,
    within: int,
)
    requires
        0 < sector_len,
        0 <= within < sector_len,
    ensures
        plain_byte(engine, contents, sector_len, index * sector_len + within) == sector_plaintext(
            engine,
            contents,
            sector_len,
            index,
        )[within],
{
    lemma_quotient_remainder(index, sector_len, within);
}

/// A range that ends in sector `index` has its span end where that sector ends.
pub proof fn lemma_span_end_in_sector(
    start: int,
    len: int,
    sector_len: int,
    index: int,
    within: int,
)
    requires
        0 < sector_len,
        0 < len,
        0 <= within < sector_len,
        start + len - 1 == index * sector_len + within,
    ensures
        span_end(start, len, sector_len) == index * sector_len + sector_len,
{
    lemma_quotient_remainder(index, sector_len, within);
    assert((index + 1) * sector_len == index * sector_len + sector_len) by (nonlinear_arith);
}

/// A range that reaches into sector `index` or beyond has its span end no earlier
/// than that sector's end.
pub proof fn lemma_span_end_reaches(start: int, len: int, sector_len: int, index: int)
    requires
        0 < sector_len,
        0 < len,
        index * sector_len <= start + len - 1,
    ensures
        index * sector_len + sector_len <= span_end(start, len, sector_len),
{
    lemma_quotient_at_least(start + len - 1, sector_len, index);
    let last = (start + len - 1) / sector_len;
    assert((index + 1) * sector_len <= (last + 1) * sector_len) by (nonlinear_arith)
        requires
            index <= last,
            0 < sector_len,
    ;
    assert((index + 1) * sector_len == index * sector_len + sector_len) by (nonlinear_arith);
}

/// A range that starts on a sector boundary and whose length is a multiple of the
/// sector length ends where its span ends.
pub proof fn lemma_span_end_aligned(start: int, len: int, sector_len: int)
    requires
        0 < sector_len,
        0 <= start,
        0 <= len,
        start % sector_len == 0,
        len % sector_len == 0,
    ensures
        span_end(start, len, sector_len) == start + len,
{
    if len > 0 {
        lemma_split(start, sector_len);
        lemma_split(len, sector_len);
        let a = start / sector_len;
        let b = len / sector_len;
        assert(b >= 1) by {
            if b <= 0 {
                assert(b * sector_len <= 0) by (nonlinear_arith)
                    requires
                        b <= 0,
                        0 < sector_len,
                ;
            }
        }
        assert(start + len - 1 == (a + b - 1) * sector_len + (sector_len - 1)) by (nonlinear_arith)
            requires
                start == a * sector_len,
                len == b * sector_len,
        ;
        lemma_span_end_in_sector(start, len, sector_len, a + b - 1, sector_len - 1);
        assert((a + b - 1) * sector_len + sector_len == a * sector_len + b * sector_len)
            by (nonlinear_arith);
    }
}

/// Once the sectors from `first` up to `next` hold the patched plaintext and the
/// rest of the store is as before, every byte whose sector the store holds reads as
/// patched.
pub proof fn lemma_patched_byte(
    engine: XtsEngine,
    before: Seq<u8>,
    after: Seq<u8>,
    sector_len: int,
    start: int,
    data: Seq<u8>,
    first: int,
    next: int,
    address: int,
)
    requires
        0 < sector_len,
        0 <= start,
        0 < data.len(),
        before.len() == after.len(),
        first == start / sector_len,
        next * sector_len == span_end(start, data.len() as int, sector_len),
        forall|a: int|
            0 <= a < before.len() && !(first * sector_len <= a < next * sector_len) ==> after[a]
                == before[a],
        forall|j: int|
            first <= j < next ==> #[trigger] sector_plaintext(engine, after, sector_len, j)
                == patched_sector(engine, before, sector_len, start, data, j),
        held(before.len() as int, sector_len, address),
    ensures
        plain_byte(engine, after, sector_len, address) == patched_byte(
            engine,
            before,
            sector_len,
            start,
            data,
            address,
        ),
{
    let j = address / sector_len;
    let last = (start + data.len() - 1) / sector_len;
    lemma_split(address, sector_len);
    lemma_split(start, sector_len);
    lemma_split(start + data.len() - 1, sector_len);
    lemma_quotient_at_least(address, sector_len, 0);
    assert((j + 1) * sector_len == j * sector_len + sector_len) by (nonlinear_arith);
    assert((last + 1) * sector_len == last * sector_len + sector_len) by (nonlinear_arith);
    assert(next == last + 1) by (nonlinear_arith)
        requires
            next * sector_len == (last + 1) * sector_len,
            0 < sector_len,
    ;
    if !(first <= j < next) {
        assert(0 <= j * sector_len) by (nonlinear_arith)
            requires
                0 <= j,
                0 < sector_len,
        ;
        if j < first {
            assert(j * sector_len + sector_len <= first * sector_len) by (nonlinear_arith)
                requires
                    j + 1 <= first,
                    0 < sector_len,
            ;
        } else {
            assert(next * sector_len <= j * sector_len) by (nonlinear_arith)
                requires
                    next <= j,
                    0 < sector_len,
            ;
        }
        lemma_sector_unchanged(engine, before, after, sector_len, j);
        if start <= address < start + data.len() {
            lemma_quotient_at_least(address, sector_len, first);
            lemma_quotient_below(address, sector_len, last + 1);
        }
    }
}

/// Once every byte whose sector the store holds reads as patched, the plaintext of a
/// data area whose sectors the store holds is the old plaintext with `data` written
/// at `position`.
pub proof fn lemma_patched_area(
    engine: XtsEngine,
    before: Seq<u8>,
    after: Seq<u8>,
    sector_len: int,
    offset: int,
    size: int,
    position: int,
    data: Seq<u8>,
)
    requires
        0 < sector_len,
        0 <= offset,
        0 <= position,
        position + data.len() <= size,
        span_end(offset, size, sector_len) <= before.len(),
        forall|a: int|
            held(before.len() as int, sector_len, a) ==> #[trigger] plain_byte(
                engine,
                after,
                sector_len,
                a,
            ) == patched_byte(engine, before, sector_len, offset + position, data, a),
    ensures
        data_plaintext(engine, after, sector_len, offset, size) == rewritten(
            data_plaintext(engine, before, sector_len, offset, size),
            position,
            data,
        ),
{
    let old_plain = data_plaintext(engine, before, sector_len, offset, size);
    let new_plain = data_plaintext(engine, after, sector_len, offset, size);
    assert(data.subrange(0, data.len() as int) =~= data);
    assert forall|at: int| 0 <= at < size implies new_plain[at] == rewritten(
        old_plain,
        position,
        data,
    )[at] by {
        let a = offset + at;
        let j = a / sector_len;
        lemma_split(a, sector_len);
        lemma_span_end_reaches(offset, size, sector_len, j);
        assert((j + 1) * sector_len == j * sector_len + sector_len) by (nonlinear_arith);
        assert(held(before.len() as int, sector_len, a));
    }
    assert(new_plain =~= rewritten(old_plain, position, data));
}

/// Reading at the position of a write that fits the area returns what was written,
/// and the area keeps its length.
pub proof fn lemma_read_returns_written(plain: Seq<u8>, position: int, data: Seq<u8>)
    requires
        0 <= position,
        position + data.len() <= plain.len(),
    ensures
        delivered(rewritten(plain, position, data), position, data.len() as int) == data,
        rewritten(plain, position, data).len() == plain.len(),
{
    assert(data.subrange(0, data.len() as int) =~= data);
    assert(delivered(rewritten(plain, position, data), position, data.len() as int) =~= data);
}

/// A write leaves the plaintext before and after the written bytes as it was.
pub proof fn lemma_write_keeps_the_rest(plain: Seq<u8>, position: int, data: Seq<u8>, at: int)
    requires
        0 <= position <= plain.len(),
        0 <= at < plain.len(),
        !(position <= at < position + data.len()),
    ensures
        rewritten(plain, position, data)[at] == plain[at],
{
}

/// A read of one sector's length that does not start on a sector boundary is spliced
/// from two sectors: the end of the one that holds the position, then the start of
/// the next.
pub proof fn lemma_read_straddles_two_sectors(
    engine: XtsEngine,
    contents: Seq<u8>,
    sector_len: int,
    offset: int,
    size: int,
    position: int,
)
    requires
        0 < sector_len,
        0 <= offset,
        0 <= position,
        position + sector_len <= size,
        (offset + position) % sector_len != 0,
    ensures
        ({
            let first = (offset + position) / sector_len;
            let within = (offset + position) % sector_len;
            let got = delivered(
                data_plaintext(engine, contents, sector_len, offset, size),
                position,
                sector_len,
            );
            &&& got.len() == sector_len
            &&& forall|t: int|
                0 <= t < sector_len - within ==> got[t] == sector_plaintext(
                    engine,
                    contents,
                    sector_len,
                    first,
                )[within + t]
            &&& forall|t: int|
                sector_len - within <= t < sector_len ==> got[t] == sector_plaintext(
                    engine,
                    contents,
                    sector_len,
                    first + 1,
                )[t - (sector_len - within)]
        }),
{
    let first = (offset + position) / sector_len;
    let within = (offset + position) % sector_len;
    let got = delivered(
        data_plaintext(engine, contents, sector_len, offset, size),
        position,
        sector_len,
    );
    lemma_split(offset + position, sector_len);
    assert((first + 1) * sector_len == first * sector_len + sector_len) by (nonlinear_arith);
    assert forall|t: int| 0 <= t < sector_len - within implies got[t] == sector_plaintext(
        engine,
        contents,
        sector_len,
        first,
    )[within + t] by {
        lemma_plain_byte_in_sector(engine, contents, sector_len, first, within + t);
    }
    assert forall|t: int| sector_len - within <= t < sector_len implies got[t] == sector_plaintext(
        engine,
        contents,
        sector_len,
        first + 1,
    )[t - (sector_len - within)] by {
        lemma_plain_byte_in_sector(
            engine,
            contents,
            sector_len,
            first + 1,
            t - (sector_len - within),
        );
    }
}

/// A read that starts on a sector boundary and crosses the next one decrypts two
/// sectors, each under its own index: the second under the index after the first's.
pub proof fn lemma_read_uses_consecutive_tweaks(
    engine: XtsEngine,
    contents: Seq<u8>,
    sector_len: int,
    offset: int,
    size: int,
    position: int,
    wanted: int,
)
    requires
        0 < sector_len < wanted <= 2 * sector_len,
        0 <= offset,
        0 <= position,
        position + wanted <= size,
        (offset + position) % sector_len == 0,
    ensures
        ({
            let first = (offset + position) / sector_len;
            let got = delivered(
                data_plaintext(engine, contents, sector_len, offset, size),
                position,
                wanted,
            );
            &&& got.len() == wanted
            &&& forall|t: int|
                0 <= t < sector_len ==> got[t] == engine.decrypted(
                    contents.subrange(first * sector_len, first * sector_len + sector_len),
                    first as u64,
                )[t]
            &&& forall|t: int|
                sector_len <= t < wanted ==> got[t] == engine.decrypted(
                    contents.subrange(
                        (first + 1) * sector_len,
                        (first + 1) * sector_len + sector_len,
                    ),
                    (first + 1) as u64,
                )[t - sector_len]
        }),
{
    let first = (offset + position) / sector_len;
    let got = delivered(
        data_plaintext(engine, contents, sector_len, offset, size),
        position,
        wanted,
    );
    lemma_split(offset + position, sector_len);
    assert((first + 1) * sector_len == first * sector_len + sector_len) by (nonlinear_arith);
    assert forall|t: int| 0 <= t < sector_len implies got[t] == engine.decrypted(
        contents.subrange(first * sector_len, first * sector_len + sector_len),
        first as u64,
    )[t] by {
        lemma_plain_byte_in_sector(engine, contents, sector_len, first, t);
    }
    assert forall|t: int| sector_len <= t < wanted implies got[t] == engine.decrypted(
        contents.subrange((first + 1) * sector_len, (first + 1) * sector_len + sector_len),
        (first + 1) as u64,
    )[t - sector_len] by {
        lemma_plain_byte_in_sector(engine, contents, sector_len, first + 1, t - sector_len);
    }
}

} // verus!
