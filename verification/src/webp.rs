//! Lossless WebP (VP8L) encoding. The encoder always skips the four
//! optional color transforms and the color cache, and uses a single global
//! Huffman code group: the compression comes from Huffman entropy coding
//! plus LZ77-style backward references.

use vstd::prelude::*;

pub mod bitwriter;
pub mod huffman;
pub mod lz77;
pub mod readback;

use crate::bytes::{le32, push_le32};
use crate::canvas::Canvas;
use crate::text::{append_str, decimal, decimal_chars, string_from};
use crate::webp::bitwriter::{bits_of, packed_bytes, BitWriter};
use crate::webp::huffman::{
    code_description, lengths_for, meta_histogram, support, write_huffman_code, HuffmanTable,
    MAX_CODE_LENGTH, MAX_META_CODE_LENGTH,
};
use crate::webp::lz77::{
    decode_tokens, encode_prefix_value, find_tokens, greedy_from, lemma_prefix_unique,
    prefix_triple, valid_tokens, Token, MAX_DISTANCE_WINDOW, MAX_MATCH, MIN_MATCH,
};
use vstd::arithmetic::power2::{lemma2_to64, pow2};

verus! {

/// Literal green values plus the 24 LZ77 length codes.
pub const GREEN_ALPHABET_SIZE: usize = 280;

/// The red, blue and alpha alphabets.
pub const CHANNEL_ALPHABET_SIZE: usize = 256;

/// The distance prefix-code alphabet.
pub const DISTANCE_ALPHABET_SIZE: usize = 40;

/// VP8L's *raw* distance value 1..=120 is reserved for a special
/// short-distance offset table (spatial neighbors like "one row up").
/// This encoder never uses it -- every backward reference is transmitted
/// as `flat_pixel_distance + 120`, which always falls past the special
/// table and decodes correctly via the plain `dist = raw - 120` branch.
pub const DISTANCE_TABLE_OFFSET: u32 = 120;

/// The largest width or height VP8L can describe.
pub const MAX_DIMENSION: u32 = 16384;

/// A pixel packed as `0xRRGGBBAA`.
pub open spec fn pack(r: u8, g: u8, b: u8, a: u8) -> u32 {
    ((r as u32) << 24u32) | ((g as u32) << 16u32) | ((b as u32) << 8u32) | (a as u32)
}

pub open spec fn red_of(p: u32) -> u8 {
    (p >> 24u32) as u8
}

pub open spec fn green_of(p: u32) -> u8 {
    (p >> 16u32) as u8
}

pub open spec fn blue_of(p: u32) -> u8 {
    (p >> 8u32) as u8
}

pub open spec fn alpha_of(p: u32) -> u8 {
    p as u8
}

/// Unpacking a packed pixel gives back its channels.
pub proof fn lemma_unpack_pack(r: u8, g: u8, b: u8, a: u8)
    ensures
        red_of(pack(r, g, b, a)) == r,
        green_of(pack(r, g, b, a)) == g,
        blue_of(pack(r, g, b, a)) == b,
        alpha_of(pack(r, g, b, a)) == a,
{
    let p = pack(r, g, b, a);
    assert(((p >> 24u32) as u8) == r && ((p >> 16u32) as u8) == g && ((p >> 8u32) as u8) == b
        && (p as u8) == a) by (bit_vector)
        requires
            p == ((r as u32) << 24u32) | ((g as u32) << 16u32) | ((b as u32) << 8u32) | (a as u32),
    ;
}

fn pack_pixel(r: u8, g: u8, b: u8, a: u8) -> (p: u32)
    ensures
        p == pack(r, g, b, a),
{
    ((r as u32) << 24) | ((g as u32) << 16) | ((b as u32) << 8) | (a as u32)
}

fn unpack_pixel(p: u32) -> (c: (u8, u8, u8, u8))
    ensures
        c == (red_of(p), green_of(p), blue_of(p), alpha_of(p)),
{
    ((p >> 24) as u8, (p >> 16) as u8, (p >> 8) as u8, p as u8)
}

/// RGBA bytes packed into one `u32` per pixel.
pub open spec fn packed_pixels(bytes: Seq<u8>) -> Seq<u32> {
    Seq::new(
        bytes.len() / 4,
        |i: int| pack(bytes[4 * i], bytes[4 * i + 1], bytes[4 * i + 2], bytes[4 * i + 3]),
    )
}

/// Pixel `p` carries the channels of the `i`th pixel of RGBA `bytes`: its
/// red, green, blue and alpha are bytes `4i`, `4i + 1`, `4i + 2`, `4i + 3`.
pub open spec fn channels_match(p: u32, bytes: Seq<u8>, i: int) -> bool {
    &&& (p >> 24u32) as u8 == bytes[4 * i]
    &&& (p >> 16u32) as u8 == bytes[4 * i + 1]
    &&& (p >> 8u32) as u8 == bytes[4 * i + 2]
    &&& p as u8 == bytes[4 * i + 3]
    &&& red_of(p) == bytes[4 * i]
    &&& green_of(p) == bytes[4 * i + 1]
    &&& blue_of(p) == bytes[4 * i + 2]
    &&& alpha_of(p) == bytes[4 * i + 3]
}

/// Each packed pixel keeps its channels where they were.
pub proof fn lemma_packed_channels(bytes: Seq<u8>)
    ensures
        forall|i: int|
            0 <= i < packed_pixels(bytes).len() ==> channels_match(#[trigger] packed_pixels(bytes)[i], bytes, i),
{
    assert forall|i: int| 0 <= i < packed_pixels(bytes).len() implies channels_match(
        #[trigger] packed_pixels(bytes)[i],
        bytes,
        i,
    ) by {
        lemma_unpack_pack(bytes[4 * i], bytes[4 * i + 1], bytes[4 * i + 2], bytes[4 * i + 3]);
    }
}

/// Some pixel is not fully opaque.
pub open spec fn alpha_used(bytes: Seq<u8>) -> bool {
    exists|i: int| 0 <= i < bytes.len() / 4 && #[trigger] bytes[4 * i + 3] != 255
}

/// The alphabet size of the Huffman group's code `c` (0 green, 1 red,
/// 2 blue, 3 alpha, 4 distance).
pub open spec fn alphabet_size(c: int) -> nat {
    if c == 0 {
        GREEN_ALPHABET_SIZE as nat
    } else if c == 4 {
        DISTANCE_ALPHABET_SIZE as nat
    } else {
        CHANNEL_ALPHABET_SIZE as nat
    }
}

/// The symbol token `t` puts in code `c`'s alphabet (-1: none).
pub open spec fn token_symbol(t: Token, c: int) -> int {
    match t {
        Token::Literal(p) => if c == 0 {
            green_of(p) as int
        } else if c == 1 {
            red_of(p) as int
        } else if c == 2 {
            blue_of(p) as int
        } else if c == 3 {
            alpha_of(p) as int
        } else {
            -1
        },
        Token::Match { length, distance } => if c == 0 {
            256 + prefix_triple(length).0
        } else if c == 4 {
            prefix_triple((distance + DISTANCE_TABLE_OFFSET) as u32).0 as int
        } else {
            -1
        },
    }
}

/// How many of `tokens` put symbol `s` in code `c`'s alphabet.
pub open spec fn symbol_count(tokens: Seq<Token>, c: int, s: int) -> nat
    decreases tokens.len(),
{
    if tokens.len() == 0 {
        0
    } else {
        symbol_count(tokens.drop_last(), c, s) + if token_symbol(tokens.last(), c) == s {
            1nat
        } else {
            0nat
        }
    }
}

/// The histogram of code `c`'s alphabet over `tokens`.
pub open spec fn histogram_of(tokens: Seq<Token>, c: int) -> Seq<u32> {
    Seq::new(alphabet_size(c), |s: int| symbol_count(tokens, c, s) as u32)
}

pub(crate) proof fn lemma_symbol_count_len(tokens: Seq<Token>, c: int, s: int)
    ensures
        symbol_count(tokens, c, s) <= tokens.len(),
    decreases tokens.len(),
{
    if tokens.len() > 0 {
        lemma_symbol_count_len(tokens.drop_last(), c, s);
    }
}

pub(crate) proof fn lemma_symbol_count_pos(tokens: Seq<Token>, c: int, k: int)
    requires
        0 <= k < tokens.len(),
    ensures
        symbol_count(tokens, c, token_symbol(tokens[k], c)) >= 1,
    decreases tokens.len(),
{
    if k < tokens.len() - 1 {
        lemma_symbol_count_pos(tokens.drop_last(), c, k);
    }
}

/// The bits that one token puts in the stream, given the five codes.
pub open spec fn token_bits(t: Token, tables: Seq<HuffmanTable>) -> Seq<bool> {
    match t {
        Token::Literal(p) => tables[0].symbol_bits(green_of(p) as int) + tables[1].symbol_bits(
            red_of(p) as int,
        ) + tables[2].symbol_bits(blue_of(p) as int) + tables[3].symbol_bits(alpha_of(p) as int),
        Token::Match { length, distance } => {
            let lt = prefix_triple(length);
            let dt = prefix_triple((distance + DISTANCE_TABLE_OFFSET) as u32);
            tables[0].symbol_bits(256 + lt.0) + bits_of(lt.2, lt.1 as nat) + tables[4].symbol_bits(
                dt.0 as int,
            ) + bits_of(dt.2, dt.1 as nat)
        },
    }
}

/// The bits of a token stream.
pub open spec fn tokens_bits(tokens: Seq<Token>, tables: Seq<HuffmanTable>) -> Seq<bool>
    decreases tokens.len(),
{
    if tokens.len() == 0 {
        Seq::empty()
    } else {
        tokens_bits(tokens.drop_last(), tables) + token_bits(tokens.last(), tables)
    }
}

/// The VP8L header: signature, dimensions minus one, the alpha hint, a
/// zero version, and the "no transform", "no color cache" and "no meta
/// prefix codes" flags.
pub open spec fn vp8l_header(width: u32, height: u32, alpha: bool) -> Seq<bool> {
    bits_of(0x2F, 8) + bits_of((width - 1) as u32, 14) + bits_of((height - 1) as u32, 14) + bits_of(
        if alpha {
            1
        } else {
            0
        },
        1,
    ) + bits_of(0, 3) + bits_of(0, 1) + bits_of(0, 1) + bits_of(0, 1)
}

/// `bits` is the body of a VP8L image of `pixels` written with `tokens`,
/// the five codes `tables` built from their histograms, and `metas` the
/// codes that describe them: the five code descriptions, then the tokens.
pub open spec fn vp8l_body_with(
    pixels: Seq<u32>,
    tokens: Seq<Token>,
    tables: Seq<HuffmanTable>,
    metas: Seq<HuffmanTable>,
    bits: Seq<bool>,
) -> bool {
    &&& decode_tokens(tokens) == pixels
    &&& valid_tokens(tokens)
    &&& tokens == greedy_from(pixels, 0)
    &&& tables.len() == 5
    &&& metas.len() == 5
    &&& forall|c: int|
        0 <= c < 5 ==> {
            &&& (#[trigger] tables[c]).wf()
            &&& tables[c].spec_lengths().len() == alphabet_size(c)
            &&& lengths_for(histogram_of(tokens, c), MAX_CODE_LENGTH as nat, tables[c].spec_lengths())
            &&& metas[c].wf()
            &&& lengths_for(
                meta_histogram(tables[c].spec_lengths(), alphabet_size(c)),
                MAX_META_CODE_LENGTH as nat,
                metas[c].spec_lengths(),
            )
        }
    &&& bits == descriptions(tables, metas) + tokens_bits(tokens, tables)
}

/// `bits` is the body of some VP8L image of `pixels`.
pub open spec fn vp8l_body(pixels: Seq<u32>, bits: Seq<bool>) -> bool {
    exists|tokens: Seq<Token>, tables: Seq<HuffmanTable>, metas: Seq<HuffmanTable>|
        vp8l_body_with(pixels, tokens, tables, metas, bits)
}

/// A RIFF container holding one `VP8L` chunk with `data`, padded to an
/// even length; the size fields are taken modulo 2^32.
pub open spec fn riff_webp(data: Seq<u8>) -> Seq<u8> {
    let pad: Seq<u8> = if data.len() % 2 == 1 {
        seq![0u8]
    } else {
        Seq::empty()
    };
    seq![82u8, 73, 70, 70] + le32(((data.len() + pad.len() + 12) % 0x1_0000_0000) as u32) + seq![
        87u8,
        69,
        66,
        80,
    ] + seq![86u8, 80, 56, 76] + le32((data.len() % 0x1_0000_0000) as u32) + data + pad
}

/// The message for a canvas with a zero side.
pub open spec fn zero_size_message() -> Seq<char> {
    "cannot encode a zero-sized canvas as WebP"@
}

/// The message for a canvas with a side over the VP8L maximum.
pub open spec fn oversize_message(width: u32, height: u32) -> Seq<char> {
    "canvas "@ + decimal(width as nat) + "x"@ + decimal(height as nat)
        + " exceeds VP8L's maximum dimension of 16384px per side"@
}

/// The five per-code histograms of a token stream.
pub struct Histograms {
    pub green: Vec<u32>,
    pub red: Vec<u32>,
    pub blue: Vec<u32>,
    pub alpha: Vec<u32>,
    pub distance: Vec<u32>,
}

fn count_symbol(h: &mut Vec<u32>, s: usize, Ghost(tokens): Ghost<Seq<Token>>, Ghost(c): Ghost<int>)
    requires
        old(h)@ == histogram_of(tokens.drop_last(), c),
        tokens.len() > 0,
        tokens.len() < u32::MAX,
        s < alphabet_size(c),
        token_symbol(tokens.last(), c) == s,
    ensures
        final(h)@ == histogram_of(tokens, c),
{
    proof {
        lemma_symbol_count_len(tokens.drop_last(), c, s as int);
    }
    let v = h[s];
    h.set(s, v + 1);
    assert(h@ =~= histogram_of(tokens, c)) by {
        assert forall|x: int| 0 <= x < alphabet_size(c) implies #[trigger] h@[x] == histogram_of(tokens, c)[x] by {
            lemma_symbol_count_len(tokens.drop_last(), c, x);
        }
    }
}

proof fn lemma_histogram_unchanged(tokens: Seq<Token>, c: int)
    requires
        tokens.len() > 0,
        token_symbol(tokens.last(), c) == -1,
    ensures
        histogram_of(tokens, c) == histogram_of(tokens.drop_last(), c),
{
    assert(histogram_of(tokens, c) =~= histogram_of(tokens.drop_last(), c));
}

/// Counts, for each of the five codes, how often each symbol occurs.
fn build_histograms(tokens: &Vec<Token>) -> (h: Histograms)
    requires
        valid_tokens(tokens@),
        tokens.len() < u32::MAX,
    ensures
        h.green@ == histogram_of(tokens@, 0),
        h.red@ == histogram_of(tokens@, 1),
        h.blue@ == histogram_of(tokens@, 2),
        h.alpha@ == histogram_of(tokens@, 3),
        h.distance@ == histogram_of(tokens@, 4),
{
    let mut green: Vec<u32> = vec![0u32; GREEN_ALPHABET_SIZE];
    let mut red: Vec<u32> = vec![0u32; CHANNEL_ALPHABET_SIZE];
    let mut blue: Vec<u32> = vec![0u32; CHANNEL_ALPHABET_SIZE];
    let mut alpha: Vec<u32> = vec![0u32; CHANNEL_ALPHABET_SIZE];
    let mut distance: Vec<u32> = vec![0u32; DISTANCE_ALPHABET_SIZE];
    proof {
        let e = tokens@.take(0);
        assert(e =~= Seq::<Token>::empty());
        assert forall|i: int| 0 <= i < 280 implies green@[i] == 0u32 by {
            assert(cloned(0u32, green@[i]));
        }
        assert forall|i: int| 0 <= i < 256 implies red@[i] == 0u32 && blue@[i] == 0u32 && alpha@[i]
            == 0u32 by {
            assert(cloned(0u32, red@[i]));
            assert(cloned(0u32, blue@[i]));
            assert(cloned(0u32, alpha@[i]));
        }
        assert forall|i: int| 0 <= i < 40 implies distance@[i] == 0u32 by {
            assert(cloned(0u32, distance@[i]));
        }
        assert(green@ =~= histogram_of(e, 0));
        assert(red@ =~= histogram_of(e, 1));
        assert(blue@ =~= histogram_of(e, 2));
        assert(alpha@ =~= histogram_of(e, 3));
        assert(distance@ =~= histogram_of(e, 4));
    }
    let mut k: usize = 0;
    while k < tokens.len()
        invariant
            valid_tokens(tokens@),
            tokens.len() < u32::MAX,
            k <= tokens.len(),
            green@ == histogram_of(tokens@.take(k as int), 0),
            red@ == histogram_of(tokens@.take(k as int), 1),
            blue@ == histogram_of(tokens@.take(k as int), 2),
            alpha@ == histogram_of(tokens@.take(k as int), 3),
            distance@ == histogram_of(tokens@.take(k as int), 4),
        decreases tokens.len() - k,
    {
        let ghost t = tokens@.take(k + 1);
        proof {
            assert(t.drop_last() =~= tokens@.take(k as int));
            assert(t.last() == tokens@[k as int]);
        }
        match tokens[k] {
            Token::Literal(pixel) => {
                let (r, g, b, a) = unpack_pixel(pixel);
                count_symbol(&mut green, g as usize, Ghost(t), Ghost(0));
                count_symbol(&mut red, r as usize, Ghost(t), Ghost(1));
                count_symbol(&mut blue, b as usize, Ghost(t), Ghost(2));
                count_symbol(&mut alpha, a as usize, Ghost(t), Ghost(3));
                proof {
                    lemma_histogram_unchanged(t, 4);
                }
            },
            Token::Match { length, distance: dist } => {
                proof {
                    assert(valid_tokens(tokens@));
                    let tk = tokens@[k as int];
                    assert(MIN_MATCH <= length <= MAX_MATCH);
                    assert(1 <= dist <= MAX_DISTANCE_WINDOW);
                }
                let lp = encode_prefix_value(length);
                proof {
                    lemma_prefix_unique(lp, lp, length);
                }
                count_symbol(&mut green, 256 + lp.0 as usize, Ghost(t), Ghost(0));
                let dp = encode_prefix_value(dist + DISTANCE_TABLE_OFFSET);
                proof {
                    lemma_prefix_unique(dp, dp, (dist + DISTANCE_TABLE_OFFSET) as u32);
                }
                count_symbol(&mut distance, dp.0 as usize, Ghost(t), Ghost(4));
                proof {
                    lemma_histogram_unchanged(t, 1);
                    lemma_histogram_unchanged(t, 2);
                    lemma_histogram_unchanged(t, 3);
                }
            },
        }
        k += 1;
    }
    proof {
        assert(tokens@.take(tokens.len() as int) =~= tokens@);
    }
    Histograms { green, red, blue, alpha, distance }
}

/// What a code built from histogram `c` of `tokens` satisfies.
pub open spec fn table_for(t: HuffmanTable, tokens: Seq<Token>, c: int) -> bool {
    &&& t.wf()
    &&& t.spec_lengths().len() == alphabet_size(c)
    &&& lengths_for(histogram_of(tokens, c), MAX_CODE_LENGTH as nat, t.spec_lengths())
}

/// A symbol that some token puts in code `c` has a code there (unless the
/// code has a single symbol, which takes no bits).
proof fn lemma_symbol_has_code(t: HuffmanTable, tokens: Seq<Token>, c: int, k: int)
    requires
        table_for(t, tokens, c),
        0 <= k < tokens.len(),
        tokens.len() < u32::MAX,
        0 <= token_symbol(tokens[k], c) < alphabet_size(c),
    ensures
        !t.is_single() ==> t.spec_lengths()[token_symbol(tokens[k], c)] > 0,
{
    let s = token_symbol(tokens[k], c);
    let h = histogram_of(tokens, c);
    lemma_symbol_count_pos(tokens, c, k);
    lemma_symbol_count_len(tokens, c, s);
    assert(h[s] > 0);
    assert(support(h).contains(s));
    assert(support(h).len() > 0) by {
        crate::webp::huffman::lemma_support_bound(h);
        vstd::set_lib::lemma_len_subset(set![s], support(h));
        assert(set![s].len() == 1) by {
            assert(set![s] =~= Set::<int>::empty().insert(s));
        }
    }
}

/// Writes token `k` of `tokens`, a literal.
fn write_literal(
    w: &mut BitWriter,
    tokens: &Vec<Token>,
    k: usize,
    pixel: u32,
    green: &HuffmanTable,
    red: &HuffmanTable,
    blue: &HuffmanTable,
    alpha: &HuffmanTable,
    distance: &HuffmanTable,
)
    requires
        old(w).wf(),
        k < tokens.len() < u32::MAX,
        tokens@[k as int] == Token::Literal(pixel),
        table_for(*green, tokens@, 0),
        table_for(*red, tokens@, 1),
        table_for(*blue, tokens@, 2),
        table_for(*alpha, tokens@, 3),
    ensures
        final(w).wf(),
        final(w).written() == old(w).written() + token_bits(
            tokens@[k as int],
            seq![*green, *red, *blue, *alpha, *distance],
        ),
{
    let ghost before = w.written();
    let (r, g, b, a) = unpack_pixel(pixel);
    write_channel(w, green, g as usize, Ghost(tokens@), Ghost(0), Ghost(k as int));
    write_channel(w, red, r as usize, Ghost(tokens@), Ghost(1), Ghost(k as int));
    write_channel(w, blue, b as usize, Ghost(tokens@), Ghost(2), Ghost(k as int));
    write_channel(w, alpha, a as usize, Ghost(tokens@), Ghost(3), Ghost(k as int));
    proof {
        assert(w.written() =~= before + token_bits(tokens@[k as int], seq![*green, *red, *blue, *alpha, *distance]));
    }
}

/// Writes symbol `s` of code `c`, the one token `k` puts there.
fn write_channel(w: &mut BitWriter, table: &HuffmanTable, s: usize, Ghost(tokens): Ghost<Seq<Token>>, Ghost(c): Ghost<int>, Ghost(k): Ghost<int>)
    requires
        old(w).wf(),
        0 <= k < tokens.len() < u32::MAX,
        0 <= c < 4,
        table_for(*table, tokens, c),
        token_symbol(tokens[k], c) == s,
        s < 256,
    ensures
        final(w).wf(),
        final(w).written() == old(w).written() + table.symbol_bits(s as int),
{
    proof {
        lemma_symbol_has_code(*table, tokens, c, k);
    }
    table.write_symbol(w, s);
}

/// Writes a value as its prefix symbol (in `table`, offset by `base`)
/// and its extra bits.
fn write_prefixed(w: &mut BitWriter, table: &HuffmanTable, base: usize, value: u32, Ghost(tokens): Ghost<Seq<Token>>, Ghost(c): Ghost<int>, Ghost(k): Ghost<int>)
    requires
        old(w).wf(),
        1 <= value <= 1_048_576,
        0 <= k < tokens.len() < u32::MAX,
        table_for(*table, tokens, c),
        base == 0 || base == 256,
        token_symbol(tokens[k], c) == base + prefix_triple(value).0,
        c == 0 || c == 4,
        c == 0 ==> base == 256 && value <= 4096,
        c == 4 ==> base == 0,
    ensures
        final(w).wf(),
        final(w).written() == old(w).written() + table.symbol_bits(base + prefix_triple(value).0)
            + bits_of(prefix_triple(value).2, prefix_triple(value).1 as nat),
{
    let ghost before = w.written();
    let (p, nbits, extra) = encode_prefix_value(value);
    proof {
        lemma_prefix_unique((p, nbits, extra), (p, nbits, extra), value);
        lemma_symbol_has_code(*table, tokens, c, k);
        vstd::bits::lemma_u32_pow2_no_overflow(nbits as nat);
        vstd::bits::lemma_u32_shl_is_mul(1, nbits);
    }
    table.write_symbol(w, base + p as usize);
    w.write_bits(extra, nbits);
    proof {
        assert(w.written() =~= before + table.symbol_bits(base + prefix_triple(value).0) + bits_of(
            prefix_triple(value).2,
            prefix_triple(value).1 as nat,
        ));
    }
}

/// Writes token `k` of `tokens`.
fn write_token(
    w: &mut BitWriter,
    tokens: &Vec<Token>,
    k: usize,
    green: &HuffmanTable,
    red: &HuffmanTable,
    blue: &HuffmanTable,
    alpha: &HuffmanTable,
    distance: &HuffmanTable,
)
    requires
        old(w).wf(),
        valid_tokens(tokens@),
        k < tokens.len() < u32::MAX,
        table_for(*green, tokens@, 0),
        table_for(*red, tokens@, 1),
        table_for(*blue, tokens@, 2),
        table_for(*alpha, tokens@, 3),
        table_for(*distance, tokens@, 4),
    ensures
        final(w).wf(),
        final(w).written() == old(w).written() + token_bits(
            tokens@[k as int],
            seq![*green, *red, *blue, *alpha, *distance],
        ),
{
    let ghost before = w.written();
    match tokens[k] {
        Token::Literal(pixel) => {
            write_literal(w, tokens, k, pixel, green, red, blue, alpha, distance);
        },
        Token::Match { length, distance: dist } => {
            proof {
                assert(valid_tokens(tokens@));
                let tk = tokens@[k as int];
                assert(MIN_MATCH <= length <= MAX_MATCH);
                assert(1 <= dist <= MAX_DISTANCE_WINDOW);
            }
            write_prefixed(w, green, 256, length, Ghost(tokens@), Ghost(0), Ghost(k as int));
            write_prefixed(w, distance, 0, dist + DISTANCE_TABLE_OFFSET, Ghost(tokens@), Ghost(4), Ghost(k as int));
            proof {
                assert(w.written() =~= before + token_bits(tokens@[k as int], seq![*green, *red, *blue, *alpha, *distance]));
            }
        },
    }
}

#[verifier::spinoff_prover]
#[verifier::rlimit(40)]
fn write_tokens(
    w: &mut BitWriter,
    tokens: &Vec<Token>,
    green: &HuffmanTable,
    red: &HuffmanTable,
    blue: &HuffmanTable,
    alpha: &HuffmanTable,
    distance: &HuffmanTable,
)
    requires
        old(w).wf(),
        valid_tokens(tokens@),
        tokens.len() < u32::MAX,
        table_for(*green, tokens@, 0),
        table_for(*red, tokens@, 1),
        table_for(*blue, tokens@, 2),
        table_for(*alpha, tokens@, 3),
        table_for(*distance, tokens@, 4),
    ensures
        final(w).wf(),
        final(w).written() == old(w).written() + tokens_bits(
            tokens@,
            seq![*green, *red, *blue, *alpha, *distance],
        ),
{
    let ghost tables = seq![*green, *red, *blue, *alpha, *distance];
    let ghost start = w.written();
    let mut k: usize = 0;
    proof {
        assert(tokens@.take(0) =~= Seq::<Token>::empty());
        assert(start + tokens_bits(tokens@.take(0), tables) =~= start);
    }
    while k < tokens.len()
        invariant
            w.wf(),
            valid_tokens(tokens@),
            tokens.len() < u32::MAX,
            table_for(*green, tokens@, 0),
            table_for(*red, tokens@, 1),
            table_for(*blue, tokens@, 2),
            table_for(*alpha, tokens@, 3),
            table_for(*distance, tokens@, 4),
            tables == seq![*green, *red, *blue, *alpha, *distance],
            k <= tokens.len(),
            w.written() == start + tokens_bits(tokens@.take(k as int), tables),
        decreases tokens.len() - k,
    {
        proof {
            assert(tokens@.take(k + 1).drop_last() =~= tokens@.take(k as int));
            assert(tokens@.take(k + 1).last() == tokens@[k as int]);
        }
        write_token(w, tokens, k, green, red, blue, alpha, distance);
        proof {
            assert(w.written() =~= start + tokens_bits(tokens@.take(k + 1), tables));
        }
        k += 1;
    }
    proof {
        assert(tokens@.take(tokens.len() as int) =~= tokens@);
    }
}

/// Wraps VP8L data in a RIFF `WEBP` container with a single `VP8L` chunk.
#[verifier::spinoff_prover]
#[verifier::rlimit(60)]
fn wrap_riff_container(vp8l_data: &Vec<u8>) -> (out: Vec<u8>)
    ensures
        out@ == riff_webp(vp8l_data@),
{
    let len = vp8l_data.len();
    let odd: u32 = if len % 2 == 1 {
        1
    } else {
        0
    };
    let len32: u32 = ((len as u64) % 0x1_0000_0000) as u32;
    let riff_size: u32 = len32.wrapping_add(odd).wrapping_add(12);
    let mut out: Vec<u8> = Vec::new();
    out.push(82u8);
    out.push(73u8);
    out.push(70u8);
    out.push(70u8);
    push_le32(&mut out, riff_size);
    out.push(87u8);
    out.push(69u8);
    out.push(66u8);
    out.push(80u8);
    out.push(86u8);
    out.push(80u8);
    out.push(56u8);
    out.push(76u8);
    push_le32(&mut out, len32);
    let ghost head = out@;
    let mut i: usize = 0;
    while i < len
        invariant
            len == vp8l_data.len(),
            i <= len,
            out@ == head + vp8l_data@.take(i as int),
        decreases len - i,
    {
        out.push(vp8l_data[i]);
        assert(vp8l_data@.take(i + 1) =~= vp8l_data@.take(i as int).push(vp8l_data@[i as int]));
        i += 1;
    }
    if len % 2 == 1 {
        out.push(0);
    }
    proof {
        assert(vp8l_data@.take(len as int) =~= vp8l_data@);
        assert(riff_size == ((len + odd + 12) % 0x1_0000_0000) as u32);
        assert(out@ =~= riff_webp(vp8l_data@));
    }
    out
}

/// What encoding a `width` x `height` canvas with RGBA bytes `pixels`
/// gives: an error for a zero side or a side over 16384 pixels, else a
/// RIFF container of a VP8L image of the pixels.
pub open spec fn webp_result(width: u32, height: u32, pixels: Seq<u8>, res: Result<Vec<u8>, String>) -> bool {
    &&& (width == 0 || height == 0) ==> (res matches Err(m) && m@ == zero_size_message())
    &&& (width != 0 && height != 0 && (width > MAX_DIMENSION || height > MAX_DIMENSION)) ==> (
    res matches Err(m) && m@ == oversize_message(width, height))
    &&& (1 <= width <= MAX_DIMENSION && 1 <= height <= MAX_DIMENSION) ==> (res matches Ok(bytes)
        && exists|body: Seq<bool>|
        {
            &&& vp8l_body(packed_pixels(pixels), body)
            &&& #[trigger] riff_webp(
                packed_bytes(vp8l_header(width, height, alpha_used(pixels)) + body),
            ) == bytes@
        })
}

/// Encodes `canvas` as a lossless WebP (VP8L). Canvases with a zero side,
/// or a side over 16384 pixels, are refused.
pub fn encode(canvas: &Canvas) -> (res: Result<Vec<u8>, String>)
    requires
        canvas.wf(),
    ensures
        webp_result(canvas.spec_width(), canvas.spec_height(), canvas.spec_pixels(), res),
{
    let width = canvas.width();
    let height = canvas.height();
    if width == 0 || height == 0 {
        let mut m: Vec<char> = Vec::new();
        append_str(&mut m, "cannot encode a zero-sized canvas as WebP");
        return Err(string_from(&m));
    }
    if width > MAX_DIMENSION || height > MAX_DIMENSION {
        let mut m: Vec<char> = Vec::new();
        append_str(&mut m, "canvas ");
        let dw = decimal_chars(width as u64);
        let mut i: usize = 0;
        while i < dw.len()
            invariant
                i <= dw.len(),
                m@ == "canvas "@ + dw@.take(i as int),
            decreases dw.len() - i,
        {
            m.push(dw[i]);
            assert(dw@.take(i + 1) =~= dw@.take(i as int).push(dw@[i as int]));
            i += 1;
        }
        assert(dw@.take(dw.len() as int) =~= dw@);
        append_str(&mut m, "x");
        let dh = decimal_chars(height as u64);
        let ghost mid = m@;
        let mut j: usize = 0;
        while j < dh.len()
            invariant
                j <= dh.len(),
                m@ == mid + dh@.take(j as int),
            decreases dh.len() - j,
        {
            m.push(dh[j]);
            assert(dh@.take(j + 1) =~= dh@.take(j as int).push(dh@[j as int]));
            j += 1;
        }
        assert(dh@.take(dh.len() as int) =~= dh@);
        append_str(&mut m, " exceeds VP8L's maximum dimension of 16384px per side");
        assert(m@ =~= oversize_message(width, height));
        return Err(string_from(&m));
    }
    let bytes = canvas.pixels();
    proof {
        assert(width * height <= 16384 * 16384) by (nonlinear_arith)
            requires
                width <= 16384,
                height <= 16384,
        ;
    }
    let (pixels, alpha_is_used) = pack_pixels(bytes);
    proof {
        assert(packed_pixels(bytes@).len() == width * height);
    }
    let vp8l_data = write_image(width, height, alpha_is_used, &pixels);
    let out = wrap_riff_container(&vp8l_data);
    Ok(out)
}

/// The pixels of RGBA `bytes` packed one per `u32`, and whether any of
/// them is not fully opaque.
fn pack_pixels(bytes: &[u8]) -> (res: (Vec<u32>, bool))
    requires
        bytes.len() < 0x1_0000_0000,
    ensures
        res.0@ == packed_pixels(bytes@),
        res.1 == alpha_used(bytes@),
        forall|i: int|
            0 <= i < res.0@.len() ==> channels_match(res.0@[i], bytes@, i),
{
    let ghost px = bytes@;
    let len = bytes.len();
    let n = len / 4;
    let mut pixels: Vec<u32> = Vec::new();
    let mut alpha_is_used = false;
    let mut i: usize = 0;
    assert(4 * n <= px.len());
    while i < n
        invariant
            bytes@ == px,
            len == px.len(),
            n == px.len() / 4,
            4 * n <= px.len(),
            i <= n,
            pixels@ == packed_pixels(px).take(i as int),
            alpha_is_used <==> exists|j: int| 0 <= j < i && #[trigger] px[4 * j + 3] != 255,
        decreases n - i,
    {
        assert(4 * i + 3 < px.len());
        let p = pack_pixel(bytes[4 * i], bytes[4 * i + 1], bytes[4 * i + 2], bytes[4 * i + 3]);
        pixels.push(p);
        if bytes[4 * i + 3] != 255 {
            alpha_is_used = true;
        }
        proof {
            assert(pixels@ =~= packed_pixels(px).take(i + 1));
            if !alpha_is_used {
                assert forall|j: int| 0 <= j < i + 1 implies #[trigger] px[4 * j + 3] == 255 by {
                    if j < i {
                    } else {
                        assert(px[4 * j + 3] == bytes@[4 * i + 3]);
                    }
                }
            } else {
                if bytes[4 * i + 3] != 255 {
                    assert(px[4 * (i as int) + 3] != 255);
                }
            }
        }
        i += 1;
    }
    proof {
        assert(pixels@ =~= packed_pixels(px));
        lemma_packed_channels(px);
    }
    (pixels, alpha_is_used)
}

/// The five code descriptions, one after another.
pub open spec fn descriptions(tables: Seq<HuffmanTable>, metas: Seq<HuffmanTable>) -> Seq<bool> {
    code_description(tables[0].spec_lengths(), alphabet_size(0), metas[0]) + code_description(
        tables[1].spec_lengths(),
        alphabet_size(1),
        metas[1],
    ) + code_description(tables[2].spec_lengths(), alphabet_size(2), metas[2]) + code_description(
        tables[3].spec_lengths(),
        alphabet_size(3),
        metas[3],
    ) + code_description(tables[4].spec_lengths(), alphabet_size(4), metas[4])
}

/// What the meta code describing code `t` of alphabet `c` satisfies.
pub open spec fn meta_for(meta: HuffmanTable, t: HuffmanTable, c: int) -> bool {
    &&& meta.wf()
    &&& lengths_for(
        meta_histogram(t.spec_lengths(), alphabet_size(c)),
        MAX_META_CODE_LENGTH as nat,
        meta.spec_lengths(),
    )
}

/// Writes the description of `t`, the code of alphabet `c`, returning the
/// meta code it was written with.
fn write_code(w: &mut BitWriter, t: &HuffmanTable, size: usize, Ghost(c): Ghost<int>) -> (meta: Ghost<HuffmanTable>)
    requires
        old(w).wf(),
        t.wf(),
        0 <= c < 5,
        size == alphabet_size(c),
        t.spec_lengths().len() == size,
    ensures
        final(w).wf(),
        meta_for(meta@, *t, c),
        final(w).written() == old(w).written() + code_description(t.spec_lengths(), size as nat, meta@),
{
    let ghost s0 = w.written();
    write_huffman_code(w, t, size);
    Ghost(choose|m: HuffmanTable|
        {
            &&& m.wf()
            &&& lengths_for(
                meta_histogram(t.spec_lengths(), size as nat),
                MAX_META_CODE_LENGTH as nat,
                m.spec_lengths(),
            )
            &&& #[trigger] w.written() == s0 + code_description(t.spec_lengths(), size as nat, m)
        })
}

proof fn lemma_body_with(
    pixels: Seq<u32>,
    tokens: Seq<Token>,
    tables: Seq<HuffmanTable>,
    metas: Seq<HuffmanTable>,
    body: Seq<bool>,
)
    requires
        decode_tokens(tokens) == pixels,
        valid_tokens(tokens),
        tokens == greedy_from(pixels, 0),
        tables.len() == 5,
        metas.len() == 5,
        table_for(tables[0], tokens, 0),
        table_for(tables[1], tokens, 1),
        table_for(tables[2], tokens, 2),
        table_for(tables[3], tokens, 3),
        table_for(tables[4], tokens, 4),
        meta_for(metas[0], tables[0], 0),
        meta_for(metas[1], tables[1], 1),
        meta_for(metas[2], tables[2], 2),
        meta_for(metas[3], tables[3], 3),
        meta_for(metas[4], tables[4], 4),
        body == descriptions(tables, metas) + tokens_bits(tokens, tables),
    ensures
        vp8l_body(pixels, body),
{
    assert forall|c: int| 0 <= c < 5 implies {
        &&& (#[trigger] tables[c]).wf()
        &&& tables[c].spec_lengths().len() == alphabet_size(c)
        &&& lengths_for(histogram_of(tokens, c), MAX_CODE_LENGTH as nat, tables[c].spec_lengths())
        &&& metas[c].wf()
        &&& lengths_for(
            meta_histogram(tables[c].spec_lengths(), alphabet_size(c)),
            MAX_META_CODE_LENGTH as nat,
            metas[c].spec_lengths(),
        )
    } by {
        if c == 0 {
        } else if c == 1 {
        } else if c == 2 {
        } else if c == 3 {
        } else {
        }
    }
    assert(vp8l_body_with(pixels, tokens, tables, metas, body));
}

/// The VP8L bitstream of a `width` x `height` image of `pixels`.
#[verifier::rlimit(60)]
fn write_image(width: u32, height: u32, alpha: bool, pixels: &Vec<u32>) -> (data: Vec<u8>)
    requires
        1 <= width <= MAX_DIMENSION,
        1 <= height <= MAX_DIMENSION,
        pixels.len() == width * height,
    ensures
        exists|body: Seq<bool>|
            {
                &&& vp8l_body(pixels@, body)
                &&& #[trigger] packed_bytes(vp8l_header(width, height, alpha) + body) == data@
            },
{
    proof {
        assert(width * height <= 16384 * 16384) by (nonlinear_arith)
            requires
                width <= 16384,
                height <= 16384,
        ;
    }
    let tokens = find_tokens(pixels.as_slice());
    proof {
        crate::webp::lz77::lemma_tokens_len(tokens@);
    }
    let histograms = build_histograms(&tokens);
    proof {
        lemma2_to64();
        assert forall|c: int| 0 <= c < 5 implies support(#[trigger] histogram_of(tokens@, c)).len() <= 280 by {
            crate::webp::huffman::lemma_support_bound(histogram_of(tokens@, c));
        }
        assert(histograms.green@ == histogram_of(tokens@, 0));
        assert(support(histogram_of(tokens@, 0)).len() <= 280);
        assert(support(histogram_of(tokens@, 1)).len() <= 280);
        assert(support(histogram_of(tokens@, 2)).len() <= 280);
        assert(support(histogram_of(tokens@, 3)).len() <= 280);
        assert(support(histogram_of(tokens@, 4)).len() <= 280);
    }
    let green_table = HuffmanTable::from_histogram(&histograms.green);
    let red_table = HuffmanTable::from_histogram(&histograms.red);
    let blue_table = HuffmanTable::from_histogram(&histograms.blue);
    let alpha_table = HuffmanTable::from_histogram(&histograms.alpha);
    let distance_table = HuffmanTable::from_histogram(&histograms.distance);
    let mut w = BitWriter::new();
    w.write_bits(0x2F, 8);
    w.write_bits(width - 1, 14);
    w.write_bits(height - 1, 14);
    let alpha_bit: u32 = if alpha {
        1
    } else {
        0
    };
    w.write_bits(alpha_bit, 1);
    w.write_bits(0, 3);
    w.write_bits(0, 1);
    w.write_bits(0, 1);
    w.write_bits(0, 1);
    let ghost header = w.written();
    proof {
        assert(header =~= vp8l_header(width, height, alpha));
    }
    let m0 = write_code(&mut w, &green_table, GREEN_ALPHABET_SIZE, Ghost(0));
    let m1 = write_code(&mut w, &red_table, CHANNEL_ALPHABET_SIZE, Ghost(1));
    let m2 = write_code(&mut w, &blue_table, CHANNEL_ALPHABET_SIZE, Ghost(2));
    let m3 = write_code(&mut w, &alpha_table, CHANNEL_ALPHABET_SIZE, Ghost(3));
    let m4 = write_code(&mut w, &distance_table, DISTANCE_ALPHABET_SIZE, Ghost(4));
    let ghost tables = seq![green_table, red_table, blue_table, alpha_table, distance_table];
    let ghost metas = seq![m0@, m1@, m2@, m3@, m4@];
    let ghost after_codes = w.written();
    proof {
        assert(after_codes =~= header + descriptions(tables, metas));
    }
    write_tokens(
        &mut w,
        &tokens,
        &green_table,
        &red_table,
        &blue_table,
        &alpha_table,
        &distance_table,
    );
    let ghost all = w.written();
    let ghost body = descriptions(tables, metas) + tokens_bits(tokens@, tables);
    proof {
        assert(all =~= header + body);
        lemma_body_with(pixels@, tokens@, tables, metas, body);
    }
    w.finish()
}

/// A WebP encoding holds the canvas pixel for pixel and channel for
/// channel: the VP8L image in the container is made of one pixel per four
/// canvas bytes, whose red, green, blue and alpha are those four bytes in
/// that order.
pub proof fn law_encoded_channels(width: u32, height: u32, px: Seq<u8>, res: Result<Vec<u8>, String>)
    requires
        webp_result(width, height, px, res),
        1 <= width <= MAX_DIMENSION,
        1 <= height <= MAX_DIMENSION,
    ensures
        res matches Ok(bytes) && exists|pixels: Seq<u32>, body: Seq<bool>|
            {
                &&& vp8l_body(pixels, body)
                &&& riff_webp(packed_bytes(vp8l_header(width, height, alpha_used(px)) + body))
                    == bytes@
                &&& pixels.len() == px.len() / 4
                &&& forall|i: int| 0 <= i < pixels.len() ==> channels_match(#[trigger] pixels[i], px, i)
            },
{
    let bytes = res->Ok_0;
    let body = choose|body: Seq<bool>|
        {
            &&& vp8l_body(packed_pixels(px), body)
            &&& #[trigger] riff_webp(packed_bytes(vp8l_header(width, height, alpha_used(px)) + body))
                == bytes@
        };
    lemma_packed_channels(px);
    let pixels = packed_pixels(px);
    assert(vp8l_body(pixels, body));
}

} // verus!
