use vstd::prelude::*;

use crate::adler32::{
    adler32_fold, adler32_update_range, lemma_adler32_fold_bounded, lemma_adler32_fold_concat,
    MOD_ADLER,
};
use crate::bytes::{be32, le16, push_be32, push_range};
use crate::canvas::Canvas;
use crate::crc32::{
    crc32_fold, crc32_update_range, crc_table_entry, lemma_crc32_fold_concat, make_table,
};
use vstd::arithmetic::div_mod::{lemma_fundamental_div_mod, lemma_fundamental_div_mod_converse};

verus! {

/// The largest payload of one stored (uncompressed) deflate block.
pub const MAX_STORED_BLOCK: usize = 65535;

/// The eight-byte PNG file signature.
pub open spec fn png_signature() -> Seq<u8> {
    seq![137u8, 80, 78, 71, 13, 10, 26, 10]
}

/// The chunk type `IHDR`.
pub open spec fn ihdr_type() -> Seq<u8> {
    seq![73u8, 72, 68, 82]
}

/// The chunk type `IDAT`.
pub open spec fn idat_type() -> Seq<u8> {
    seq![73u8, 68, 65, 84]
}

/// The chunk type `IEND`.
pub open spec fn iend_type() -> Seq<u8> {
    seq![73u8, 69, 78, 68]
}

/// The standard CRC-32 of `data` (initial state and final XOR all ones).
pub open spec fn crc32_of(data: Seq<u8>) -> u32 {
    crc32_fold(0xFFFFFFFF, data) ^ 0xFFFFFFFF
}

/// A PNG chunk: big-endian data length, type, data, and the CRC-32 of
/// type and data.
pub open spec fn png_chunk(ty: Seq<u8>, data: Seq<u8>) -> Seq<u8> {
    be32(data.len() as u32) + ty + data + be32(crc32_of(ty + data))
}

/// The IHDR payload: width, height, bit depth 8, color type 6 (RGBA), and
/// the default compression, filter and interlace methods.
pub open spec fn ihdr(width: u32, height: u32) -> Seq<u8> {
    be32(width) + be32(height) + seq![8u8, 6, 0, 0, 0]
}

/// Byte `k` of the filtered image data: every row is a filter-type-0 byte
/// followed by that row's `stride` pixel bytes.
pub open spec fn scanline_byte(stride: int, pixels: Seq<u8>, k: int) -> u8 {
    let row_len = stride + 1;
    if k % row_len == 0 {
        0
    } else {
        pixels[(k / row_len) * stride + k % row_len - 1]
    }
}

/// The whole filtered image data of a `rows`-row image.
pub open spec fn raw_scanlines(stride: nat, rows: nat, pixels: Seq<u8>) -> Seq<u8> {
    Seq::new(rows * (stride + 1), |k: int| scanline_byte(stride as int, pixels, k))
}

/// The five-byte header of a stored deflate block holding `n` bytes.
pub open spec fn stored_block_header(is_final: bool, n: u16) -> Seq<u8> {
    seq![if is_final { 1u8 } else { 0u8 }] + le16(n) + le16(!n)
}

/// Stored deflate blocks, `MAX_STORED_BLOCK` bytes each but the last,
/// for `data[offset..]`; the block holding the last byte is marked final.
pub open spec fn stored_blocks_from(data: Seq<u8>, offset: int) -> Seq<u8>
    decreases data.len() - offset,
{
    if offset < 0 || offset >= data.len() {
        Seq::empty()
    } else {
        let end = if offset + 65535 < data.len() {
            offset + 65535
        } else {
            data.len() as int
        };
        stored_block_header(end == data.len(), (end - offset) as u16) + data.subrange(offset, end)
            + stored_blocks_from(data, end)
    }
}

/// `data` as stored deflate blocks; empty data is a single empty final
/// block.
pub open spec fn deflate_stored(data: Seq<u8>) -> Seq<u8> {
    if data.len() == 0 {
        stored_block_header(true, 0)
    } else {
        stored_blocks_from(data, 0)
    }
}

/// The adler32 checksum of `data`.
pub open spec fn adler32_of(data: Seq<u8>) -> u32 {
    let (a, b) = adler32_fold(1, 0, data);
    (b * 65536 + a) as u32
}

/// A zlib stream (header 0x78 0x01) of stored blocks, with its adler32
/// trailer.
pub open spec fn zlib_stored(data: Seq<u8>) -> Seq<u8> {
    seq![0x78u8, 0x01] + deflate_stored(data) + be32(adler32_of(data))
}

/// The PNG encoding of a `width` x `height` RGBA raster: signature, IHDR,
/// one IDAT holding the zlib-stored filtered scanlines, IEND.
pub open spec fn png_encoding(width: u32, height: u32, pixels: Seq<u8>) -> Seq<u8> {
    png_signature() + png_chunk(ihdr_type(), ihdr(width, height)) + png_chunk(
        idat_type(),
        zlib_stored(raw_scanlines((4 * width) as nat, height as nat, pixels)),
    ) + png_chunk(iend_type(), Seq::empty())
}

/// The number of stored blocks for `n` bytes (at least one).
pub open spec fn stored_block_count(n: int) -> int {
    if n <= 0 {
        1
    } else {
        (n + 65534) / 65535
    }
}

/// The size of the zlib stream for `n` bytes of data.
pub open spec fn zlib_stored_size(n: int) -> int {
    6 + n + 5 * stored_block_count(n)
}

/// The size of the filtered data of a `width` x `height` image.
pub open spec fn raw_size(width: u32, height: u32) -> int {
    height * (4 * width + 1)
}

proof fn lemma_stored_blocks_len(data: Seq<u8>, offset: int)
    requires
        0 <= offset <= data.len(),
    ensures
        stored_blocks_from(data, offset).len() == (data.len() - offset) + 5 * ((data.len() - offset
            + 65534) / 65535),
    decreases data.len() - offset,
{
    if offset < data.len() {
        let end = if offset + 65535 < data.len() {
            offset + 65535
        } else {
            data.len() as int
        };
        lemma_stored_blocks_len(data, end);
        let n = data.len() - offset;
        if n <= 65535 {
            assert((n + 65534) / 65535 == 1);
            assert((data.len() - end + 65534) / 65535 == 0);
        } else {
            assert((n + 65534) / 65535 == 1 + (n - 65535 + 65534) / 65535);
        }
    }
}

proof fn lemma_zlib_stored_len(data: Seq<u8>)
    ensures
        zlib_stored(data).len() == zlib_stored_size(data.len() as int),
{
    if data.len() > 0 {
        lemma_stored_blocks_len(data, 0);
    }
}

/// Total byte length of the zlib-wrapped stored-deflate-blocks encoding
/// (2-byte header + stored blocks of up to `MAX_STORED_BLOCK` bytes, each
/// with a 5-byte header + 4-byte adler32 trailer) of `raw_len` bytes of
/// input.
fn zlib_stored_len(raw_len: usize) -> (n: usize)
    requires
        zlib_stored_size(raw_len as int) <= usize::MAX,
    ensures
        n == zlib_stored_size(raw_len as int),
{
    let blocks_len = if raw_len == 0 {
        5
    } else {
        let q = raw_len / MAX_STORED_BLOCK;
        let r = raw_len % MAX_STORED_BLOCK;
        proof {
            lemma_fundamental_div_mod(raw_len as int, 65535);
            if r == 0 {
                lemma_fundamental_div_mod_converse(raw_len + 65534, 65535, q as int, 65534);
            } else {
                lemma_fundamental_div_mod_converse(raw_len + 65534, 65535, q + 1, r - 1);
            }
        }
        let count = if r != 0 {
            q + 1
        } else {
            q
        };
        raw_len + count * 5
    };
    2 + blocks_len + 4
}

fn ihdr_data(canvas: &Canvas) -> (data: Vec<u8>)
    ensures
        data@ == ihdr(canvas.spec_width(), canvas.spec_height()),
{
    let mut data: Vec<u8> = Vec::new();
    push_be32(&mut data, canvas.width());
    push_be32(&mut data, canvas.height());
    data.push(8);  // bit depth
    data.push(6);  // color type: truecolor with alpha
    data.push(0);
    data.push(0);
    data.push(0);
    assert(data@ =~= ihdr(canvas.spec_width(), canvas.spec_height()));
    data
}

/// The CRC-32 table invariant.
spec fn table_ok(table: &Vec<u32>) -> bool {
    &&& table.len() == 256
    &&& forall|n: int| 0 <= n < 256 ==> #[trigger] table[n] == crc_table_entry(n as u32)
}

fn write_chunk(out: &mut Vec<u8>, table: &Vec<u32>, chunk_type: &[u8], data: &[u8])
    requires
        table_ok(table),
        chunk_type.len() == 4,
    ensures
        final(out)@ == old(out)@ + png_chunk(chunk_type@, data@),
{
    push_be32(out, data.len() as u32);
    let mut crc = 0xFFFFFFFFu32;
    push_range(out, chunk_type, 0, 4);
    crc32_update_range(table, &mut crc, chunk_type, 0, 4);
    push_range(out, data, 0, data.len());
    crc32_update_range(table, &mut crc, data, 0, data.len());
    push_be32(out, crc ^ 0xFFFFFFFF);
    proof {
        assert(chunk_type@.subrange(0, 4) == chunk_type@);
        assert(data@.subrange(0, data@.len() as int) == data@);
        lemma_crc32_fold_concat(0xFFFFFFFF, chunk_type@, data@);
        assert(final(out)@ =~= old(out)@ + png_chunk(chunk_type@, data@));
    }
}

proof fn lemma_scanline_run(stride: int, rows: int, pixels: Seq<u8>, vp: int, row: int, pir: int, take: int)
    requires
        stride >= 0,
        pixels.len() == rows * stride,
        vp == row * (stride + 1) + pir,
        1 <= pir <= stride,
        0 <= row < rows,
        0 <= take <= stride - (pir - 1),
        vp + take <= rows * (stride + 1),
        row * stride + stride <= pixels.len(),
    ensures
        pixels.subrange(row * stride + pir - 1, row * stride + pir - 1 + take) == raw_scanlines(
            stride as nat,
            rows as nat,
            pixels,
        ).subrange(vp, vp + take),
{
    let raw = raw_scanlines(stride as nat, rows as nat, pixels);
    assert forall|j: int| 0 <= j < take implies #[trigger] pixels.subrange(
        row * stride + pir - 1,
        row * stride + pir - 1 + take,
    )[j] == raw.subrange(vp, vp + take)[j] by {
        lemma_fundamental_div_mod_converse(vp + j, stride + 1, row, pir + j);
    }
    assert(pixels.subrange(row * stride + pir - 1, row * stride + pir - 1 + take) =~= raw.subrange(
        vp,
        vp + take,
    ));
}

/// Writes `len` bytes starting at virtual offset `virtual_pos` of the
/// conceptual "filter byte + `stride` pixel bytes, per row" scanline stream
/// to `out`, folding the same bytes into the running adler32 (data
/// only) and crc32 (this chunk's type + all its data) states as they go.
fn copy_virtual_scanlines(
    pixels: &[u8],
    stride: usize,
    Ghost(rows): Ghost<nat>,
    virtual_pos: usize,
    remaining: usize,
    out: &mut Vec<u8>,
    table: &Vec<u32>,
    crc: &mut u32,
    a: &mut u32,
    b: &mut u32,
)
    requires
        table_ok(table),
        stride < usize::MAX,
        pixels.len() == rows * stride,
        virtual_pos + remaining <= rows * (stride + 1),
        virtual_pos + remaining <= usize::MAX,
        *old(a) < MOD_ADLER,
        *old(b) < MOD_ADLER,
    ensures
        ({
            let run = raw_scanlines(stride as nat, rows, pixels@).subrange(
                virtual_pos as int,
                virtual_pos + remaining,
            );
            &&& final(out)@ == old(out)@ + run
            &&& *final(crc) == crc32_fold(*old(crc), run)
            &&& (*final(a) as int, *final(b) as int) == adler32_fold(
                *old(a) as int,
                *old(b) as int,
                run,
            )
        }),
        *final(a) < MOD_ADLER,
        *final(b) < MOD_ADLER,
{
    let ghost raw = raw_scanlines(stride as nat, rows, pixels@);
    let ghost out0 = out@;
    let ghost crc0 = *crc;
    let ghost a0 = *a as int;
    let ghost b0 = *b as int;
    let ghost vp0 = virtual_pos as int;
    let ghost end0 = virtual_pos + remaining;
    let row_len = stride + 1;
    assert(raw.len() == rows * (stride + 1));
    let mut virtual_pos = virtual_pos;
    let mut remaining = remaining;
    let zero: Vec<u8> = vec![0u8];
    while remaining > 0
        invariant
            table_ok(table),
            pixels.len() == rows * stride,
            row_len == stride + 1,
            raw.len() == rows * (stride + 1),
            zero@ == seq![0u8],
            0 <= vp0 <= virtual_pos,
            virtual_pos + remaining == end0,
            end0 <= rows * (stride + 1),
            end0 <= usize::MAX,
            raw == raw_scanlines(stride as nat, rows, pixels@),
            out@ == out0 + raw.subrange(vp0, virtual_pos as int),
            *crc == crc32_fold(crc0, raw.subrange(vp0, virtual_pos as int)),
            (*a as int, *b as int) == adler32_fold(a0, b0, raw.subrange(vp0, virtual_pos as int)),
            *a < MOD_ADLER,
            *b < MOD_ADLER,
            0 <= a0 < MOD_ADLER,
            0 <= b0 < MOD_ADLER,
        decreases remaining,
    {
        let row = virtual_pos / row_len;
        let pos_in_row = virtual_pos % row_len;
        let ghost done = raw.subrange(vp0, virtual_pos as int);
        proof {
            lemma_fundamental_div_mod(virtual_pos as int, row_len as int);
            assert(row < rows) by (nonlinear_arith)
                requires
                    virtual_pos == row_len * row + pos_in_row,
                    0 <= pos_in_row,
                    virtual_pos < rows * row_len,
                    row_len > 0,
            ;
        }
        let take: usize;
        if pos_in_row == 0 {
            take = 1;
            out.push(0u8);
            crc32_update_range(table, crc, zero.as_slice(), 0, 1);
            adler32_update_range(a, b, zero.as_slice(), 0, 1);
            proof {
                assert(zero@.subrange(0, 1) == seq![0u8]);
                assert(raw[virtual_pos as int] == 0u8);
                assert(raw.subrange(virtual_pos as int, virtual_pos + 1) =~= seq![0u8]);
            }
        } else {
            let pixel_offset = pos_in_row - 1;
            proof {
                assert(row * stride <= pixels.len()) by (nonlinear_arith)
                    requires
                        row < rows,
                        pixels.len() == rows * stride,
                        stride >= 0,
                ;
                assert(row * stride + stride <= pixels.len()) by (nonlinear_arith)
                    requires
                        row + 1 <= rows,
                        pixels.len() == rows * stride,
                        stride >= 0,
                ;
            }
            let row_start = row * stride;
            let available = stride - pixel_offset;
            take = if available < remaining {
                available
            } else {
                remaining
            };
            let start = row_start + pixel_offset;
            push_range(out, pixels, start, start + take);
            crc32_update_range(table, crc, pixels, start, start + take);
            adler32_update_range(a, b, pixels, start, start + take);
            proof {
                assert(virtual_pos == row * (stride + 1) + pos_in_row) by (nonlinear_arith)
                    requires
                        virtual_pos == row_len * row + pos_in_row,
                        row_len == stride + 1,
                ;
                lemma_scanline_run(
                    stride as int,
                    rows as int,
                    pixels@,
                    virtual_pos as int,
                    row as int,
                    pos_in_row as int,
                    take as int,
                );
            }
        }
        assert(take <= remaining);
        proof {
            let chunk = raw.subrange(virtual_pos as int, virtual_pos + take);
            assert(raw.subrange(vp0, virtual_pos + take) =~= done + chunk);
            lemma_crc32_fold_concat(crc0, done, chunk);
            lemma_adler32_fold_concat(a0, b0, done, chunk);
        }
        virtual_pos += take;
        remaining -= take;
    }
}

proof fn lemma_stored_blocks_step(data: Seq<u8>, offset: int, end: int)
    requires
        0 <= offset < end <= data.len(),
        end == (if offset + 65535 < data.len() {
            offset + 65535
        } else {
            data.len() as int
        }),
    ensures
        stored_blocks_from(data, offset) == stored_block_header(
            end == data.len(),
            (end - offset) as u16,
        ) + data.subrange(offset, end) + stored_blocks_from(data, end),
{
}

/// Writes the IDAT chunk (length, type, zlib-wrapped filtered scanlines,
/// CRC) to `out`. The scanline data -- a filter-type-0 byte followed by
/// `stride` pixel bytes, per row -- is never materialized as its own
/// buffer: each stored block's bytes are copied straight from `pixels` (or
/// synthesized, for filter bytes) to `out`.
#[verifier::rlimit(50)]
fn write_idat_chunk(
    out: &mut Vec<u8>,
    table: &Vec<u32>,
    pixels: &[u8],
    stride: usize,
    Ghost(rows): Ghost<nat>,
    raw_len: usize,
    idat_len: usize,
)
    requires
        table_ok(table),
        stride < usize::MAX,
        pixels.len() == rows * stride,
        raw_len == rows * (stride + 1),
        idat_len == zlib_stored_size(raw_len as int),
    ensures
        final(out)@ == old(out)@ + png_chunk(
            idat_type(),
            zlib_stored(raw_scanlines(stride as nat, rows, pixels@)),
        ),
{
    let ghost raw = raw_scanlines(stride as nat, rows, pixels@);
    let ghost out0 = out@;
    proof {
        lemma_zlib_stored_len(raw);
    }
    push_be32(out, idat_len as u32);
    let ghost out1 = out@;

    let mut crc = 0xFFFFFFFFu32;
    let idat: Vec<u8> = vec![73u8, 68, 65, 84];
    push_range(out, idat.as_slice(), 0, 4);
    crc32_update_range(table, &mut crc, idat.as_slice(), 0, 4);

    let zlib_header: Vec<u8> = vec![0x78u8, 0x01u8];
    push_range(out, zlib_header.as_slice(), 0, 2);
    crc32_update_range(table, &mut crc, zlib_header.as_slice(), 0, 2);
    proof {
        assert(idat@.subrange(0, 4) =~= idat_type());
        assert(zlib_header@.subrange(0, 2) =~= seq![0x78u8, 0x01]);
        lemma_crc32_fold_concat(0xFFFFFFFF, idat_type(), seq![0x78u8, 0x01]);
    }
    let ghost prefix = idat_type() + seq![0x78u8, 0x01];

    let mut a: u32 = 1;
    let mut b: u32 = 0;

    if raw_len == 0 {
        let header: Vec<u8> = vec![0x01u8, 0, 0, 0xFF, 0xFF];
        push_range(out, header.as_slice(), 0, 5);
        crc32_update_range(table, &mut crc, header.as_slice(), 0, 5);
        proof {
            assert(header@.subrange(0, 5) =~= stored_block_header(true, 0)) by {
                assert(!0u16 == 0xFFFFu16) by (bit_vector);
                assert((0xFFFFu16 >> 8) as u8 == 0xFFu8) by (bit_vector);
                assert(0xFFFFu16 as u8 == 0xFFu8) by (bit_vector);
                assert((0u16 >> 8) as u8 == 0u8) by (bit_vector);
            }
            lemma_crc32_fold_concat(0xFFFFFFFF, prefix, stored_block_header(true, 0));
            assert(raw.len() == 0);
            assert(raw =~= Seq::<u8>::empty());
        }
    } else {
        let mut offset: usize = 0;
        let ghost mut written: Seq<u8> = Seq::empty();
        while offset < raw_len
            invariant
                table_ok(table),
                stride < usize::MAX,
                pixels.len() == rows * stride,
                raw_len == rows * (stride + 1),
                raw == raw_scanlines(stride as nat, rows, pixels@),
                raw.len() == raw_len,
                offset <= raw_len,
                out@ == out1 + prefix + written,
                written + stored_blocks_from(raw, offset as int) == stored_blocks_from(raw, 0),
                crc == crc32_fold(0xFFFFFFFF, prefix + written),
                (a as int, b as int) == adler32_fold(1, 0, raw.take(offset as int)),
                a < MOD_ADLER,
                b < MOD_ADLER,
            decreases raw_len - offset,
        {
            let end = if raw_len - offset > MAX_STORED_BLOCK {
                offset + MAX_STORED_BLOCK
            } else {
                raw_len
            };
            let len = end - offset;
            let is_final = end == raw_len;
            let l16 = len as u16;
            let n16 = !l16;
            let header: Vec<u8> = vec![
                if is_final {
                    0x01u8
                } else {
                    0x00u8
                },
                l16 as u8,
                (l16 >> 8) as u8,
                n16 as u8,
                (n16 >> 8) as u8,
            ];
            push_range(out, header.as_slice(), 0, 5);
            let ghost crc_before = crc;
            crc32_update_range(table, &mut crc, header.as_slice(), 0, 5);
            let ghost hdr = stored_block_header(is_final, l16);
            proof {
                assert(header@.subrange(0, 5) =~= hdr);
                lemma_crc32_fold_concat(0xFFFFFFFF, prefix + written, hdr);
                assert(out@ =~= out1 + prefix + (written + hdr));
                assert(prefix + written + hdr =~= prefix + (written + hdr));
            }
            let ghost written_h = written + hdr;
            let ghost out_h = out@;
            let ghost crc_h = crc;
            let ghost a_h = a as int;
            let ghost b_h = b as int;
            copy_virtual_scanlines(
                pixels,
                stride,
                Ghost(rows),
                offset,
                len,
                out,
                table,
                &mut crc,
                &mut a,
                &mut b,
            );
            proof {
                let block = raw.subrange(offset as int, end as int);
                lemma_stored_blocks_step(raw, offset as int, end as int);
                assert(stored_blocks_from(raw, offset as int) == hdr + block + stored_blocks_from(
                    raw,
                    end as int,
                ));
                lemma_crc32_fold_concat(0xFFFFFFFF, prefix + written_h, block);
                assert(prefix + written + hdr =~= prefix + written_h);
                assert(prefix + written_h + block =~= prefix + (written_h + block));
                assert(raw.take(end as int) =~= raw.take(offset as int) + block);
                lemma_adler32_fold_concat(1, 0, raw.take(offset as int), block);
                written = written_h + block;
                assert(out@ =~= out1 + prefix + written);
                assert(written + stored_blocks_from(raw, end as int) =~= stored_blocks_from(raw, 0));
            }
            offset = end;
        }
        proof {
            assert(raw.take(raw_len as int) =~= raw);
            assert(stored_blocks_from(raw, raw_len as int) =~= Seq::<u8>::empty());
            assert(written =~= stored_blocks_from(raw, 0));
        }
    }

    proof {
        lemma_adler32_fold_bounded(1, 0, raw);
        assert(b < 65536 && a < 65536);
        assert((b << 16) | a == (b * 65536 + a) as u32) by (bit_vector)
            requires
                b < 65536u32,
                a < 65536u32,
        ;
    }
    let ghost before_trailer = crc;
    let adler = crate::bytes::be32_bytes((b << 16) | a);
    push_range(out, adler.as_slice(), 0, 4);
    crc32_update_range(table, &mut crc, adler.as_slice(), 0, 4);

    push_be32(out, crc ^ 0xFFFFFFFF);
    proof {
        let z = zlib_stored(raw);
        assert(adler@.subrange(0, 4) == be32(adler32_of(raw)));
        assert(prefix + deflate_stored(raw) + be32(adler32_of(raw)) =~= idat_type() + z);
        lemma_crc32_fold_concat(0xFFFFFFFF, prefix + deflate_stored(raw), be32(adler32_of(raw)));
        assert(z.len() == idat_len);
        assert(out@ =~= out0 + png_chunk(idat_type(), z));
    }
}

/// Encodes `canvas` as a PNG directly into `out` in one pass. Beyond the
/// canvas itself (owned by the caller) and small, fixed-size scratch state,
/// nothing here holds a full copy of the image -- not the filtered
/// scanlines, not the zlib-framed data. Every stored-block length is
/// computed analytically up front (see `zlib_stored_len`), since these are
/// uncompressed "stored" deflate blocks of fully predictable size, so each
/// chunk's length is written before its data the way the PNG format
/// expects, without buffering the data first just to measure it.
pub fn encode_to_writer(canvas: &Canvas, out: &mut Vec<u8>)
    requires
        canvas.wf(),
        4 * canvas.spec_width() + 1 <= usize::MAX,
        zlib_stored_size(raw_size(canvas.spec_width(), canvas.spec_height())) <= usize::MAX,
    ensures
        final(out)@ == old(out)@ + png_encoding(
            canvas.spec_width(),
            canvas.spec_height(),
            canvas.spec_pixels(),
        ),
{
    let width = canvas.width() as usize;
    let height = canvas.height() as usize;
    let stride = width * 4;
    let pixels = canvas.pixels();
    proof {
        assert(height * (stride + 1) <= usize::MAX) by (nonlinear_arith)
            requires
                zlib_stored_size(height * (stride + 1)) <= usize::MAX,
                stored_block_count(height * (stride + 1)) >= 0,
        ;
        assert(stored_block_count(height * (stride + 1)) >= 0) by (nonlinear_arith)
            requires
                height >= 0,
                stride >= 0,
        ;
        assert(pixels@.len() == height * stride) by (nonlinear_arith)
            requires
                pixels@.len() == width * height * 4,
                stride == width * 4,
        ;
    }
    let raw_len = height * (stride + 1);
    let idat_len = zlib_stored_len(raw_len);
    let table = make_table();
    let ghost out0 = out@;

    let signature: Vec<u8> = vec![137u8, 80, 78, 71, 13, 10, 26, 10];
    push_range(out, signature.as_slice(), 0, 8);
    let ihdr_bytes = ihdr_data(canvas);
    let ihdr_ty: Vec<u8> = vec![73u8, 72, 68, 82];
    write_chunk(out, &table, ihdr_ty.as_slice(), ihdr_bytes.as_slice());
    write_idat_chunk(out, &table, pixels, stride, Ghost(height as nat), raw_len, idat_len);
    let iend_ty: Vec<u8> = vec![73u8, 69, 78, 68];
    let empty: Vec<u8> = Vec::new();
    write_chunk(out, &table, iend_ty.as_slice(), empty.as_slice());
    proof {
        assert(signature@.subrange(0, 8) =~= png_signature());
        assert(ihdr_ty@ =~= ihdr_type());
        assert(iend_ty@ =~= iend_type());
        assert(empty@ =~= Seq::<u8>::empty());
        assert(out@ =~= out0 + png_encoding(
            canvas.spec_width(),
            canvas.spec_height(),
            canvas.spec_pixels(),
        ));
    }
}

/// Encodes `canvas` as a PNG into an in-memory buffer.
pub fn encode(canvas: &Canvas) -> (png: Vec<u8>)
    requires
        canvas.wf(),
        4 * canvas.spec_width() + 1 <= usize::MAX,
        64 + zlib_stored_size(raw_size(canvas.spec_width(), canvas.spec_height())) <= usize::MAX,
    ensures
        png@ == png_encoding(canvas.spec_width(), canvas.spec_height(), canvas.spec_pixels()),
{
    let width = canvas.width() as usize;
    let height = canvas.height() as usize;
    proof {
        assert(height * (width * 4 + 1) <= usize::MAX) by (nonlinear_arith)
            requires
                64 + zlib_stored_size(height * (width * 4 + 1)) <= usize::MAX,
                stored_block_count(height * (width * 4 + 1)) >= 0,
        ;
        assert(stored_block_count(height * (width * 4 + 1)) >= 0) by (nonlinear_arith)
            requires
                height >= 0,
                width >= 0,
        ;
    }
    let raw_len = height * (width * 4 + 1);
    let mut out = Vec::with_capacity(64 + zlib_stored_len(raw_len));
    encode_to_writer(canvas, &mut out);
    assert(out@ =~= png_encoding(canvas.spec_width(), canvas.spec_height(), canvas.spec_pixels()));
    out
}

} // verus!
