//! Reading a token stream back from the bits the encoder writes for it:
//! the five codes are prefix codes and every extra-bits field has the width
//! its prefix symbol gives, so the bits fix the tokens, and with them the
//! pixels.

use vstd::prelude::*;

use crate::webp::bitwriter::{
    bits_of, lemma_bits_of_injective, lemma_unpack_packed, lemma_unpacked_concat,
    lemma_unpacked_zero_byte, packed_bytes, unpacked_bits, zero_bits,
};
use crate::webp::huffman::{
    code_description, lemma_symbols_same_tables, meta_histogram, lengths_for, lemma_description_parse, lemma_meta_codes, lemma_same_lengths_same_bits,
    lemma_support_bound, lemma_symbol_bits_parse, meta_codes, support, HuffmanTable,
};
use crate::webp::lz77::{
    decode_tokens, lemma_alphabet_offsets, lemma_decoded_len, lemma_prefix_code_below,
    lemma_prefix_exists, lemma_tokens_len, lemma_tokens_len_front, prefix_triple, tokens_len,
    valid_tokens, Token, MAX_DISTANCE_WINDOW, MAX_MATCH, MIN_MATCH,
};
use crate::webp::{
    alpha_of, alpha_used, alphabet_size, blue_of, descriptions, green_of, histogram_of,
    lemma_symbol_count_len, lemma_symbol_count_pos, lemma_unpack_pack, pack, packed_pixels, red_of,
    riff_webp, symbol_count, token_bits, token_symbol, tokens_bits, vp8l_body, vp8l_body_with,
    vp8l_header, webp_result, DISTANCE_TABLE_OFFSET, MAX_DIMENSION,
};
use vstd::arithmetic::power2::pow2;

verus! {

/// The five codes of a Huffman group: well formed, one per alphabet.
pub open spec fn code_group(tables: Seq<HuffmanTable>) -> bool {
    &&& tables.len() == 5
    &&& forall|c: int|
        0 <= c < 5 ==> (#[trigger] tables[c]).wf() && tables[c].spec_lengths().len()
            == alphabet_size(c)
}

/// Every symbol token `t` puts in one of the five codes has a code there.
pub open spec fn token_coded(t: Token, tables: Seq<HuffmanTable>) -> bool {
    forall|c: int|
        0 <= c < 5 && #[trigger] token_symbol(t, c) >= 0 ==> token_symbol(t, c)
            < tables[c].spec_lengths().len() && tables[c].spec_lengths()[token_symbol(t, c)] > 0
}

/// Every symbol `tokens` put in one of the five codes has a code there.
pub open spec fn coded(tokens: Seq<Token>, tables: Seq<HuffmanTable>) -> bool {
    forall|k: int| 0 <= k < tokens.len() ==> token_coded(#[trigger] tokens[k], tables)
}

/// A match of a length and distance the encoder can express.
pub open spec fn token_in_range(t: Token) -> bool {
    match t {
        Token::Literal(_) => true,
        Token::Match { length, distance } => MIN_MATCH <= length <= MAX_MATCH && 1 <= distance
            <= MAX_DISTANCE_WINDOW,
    }
}

/// Every match of `tokens` has a length and distance the encoder can express.
pub open spec fn in_range(tokens: Seq<Token>) -> bool {
    forall|k: int| 0 <= k < tokens.len() ==> token_in_range(#[trigger] tokens[k])
}

/// What follows a token's first symbol in its bits.
spec fn token_tail(t: Token, tables: Seq<HuffmanTable>) -> Seq<bool> {
    match t {
        Token::Literal(p) => tables[1].symbol_bits(red_of(p) as int) + tables[2].symbol_bits(
            blue_of(p) as int,
        ) + tables[3].symbol_bits(alpha_of(p) as int),
        Token::Match { length, distance } => {
            let lt = prefix_triple(length);
            let dt = prefix_triple((distance + DISTANCE_TABLE_OFFSET) as u32);
            bits_of(lt.2, lt.1 as nat) + tables[4].symbol_bits(dt.0 as int) + bits_of(
                dt.2,
                dt.1 as nat,
            )
        },
    }
}

proof fn lemma_token_bits_split(t: Token, tables: Seq<HuffmanTable>)
    ensures
        token_bits(t, tables) == tables[0].symbol_bits(token_symbol(t, 0)) + token_tail(t, tables),
{
    match t {
        Token::Literal(p) => {
            assert(token_bits(t, tables) =~= tables[0].symbol_bits(token_symbol(t, 0)) + token_tail(
                t,
                tables,
            ));
        },
        Token::Match { length, distance } => {
            assert(token_bits(t, tables) =~= tables[0].symbol_bits(token_symbol(t, 0)) + token_tail(
                t,
                tables,
            ));
        },
    }
}

/// The bits of a stream, split after its first token.
proof fn lemma_tokens_bits_front(t: Token, rest: Seq<Token>, tables: Seq<HuffmanTable>)
    ensures
        tokens_bits(seq![t] + rest, tables) == token_bits(t, tables) + tokens_bits(rest, tables),
    decreases rest.len(),
{
    let s = seq![t] + rest;
    if rest.len() == 0 {
        assert(s.drop_last() =~= Seq::<Token>::empty());
        assert(s.last() == t);
        assert(tokens_bits(s.drop_last(), tables) == Seq::<bool>::empty());
        assert(tokens_bits(rest, tables) == Seq::<bool>::empty());
        assert(tokens_bits(s, tables) == tokens_bits(s.drop_last(), tables) + token_bits(
            s.last(),
            tables,
        ));
        assert(tokens_bits(s, tables) =~= token_bits(t, tables) + tokens_bits(rest, tables));
    } else {
        assert(s.drop_last() =~= seq![t] + rest.drop_last());
        assert(s.last() == rest.last());
        lemma_tokens_bits_front(t, rest.drop_last(), tables);
        assert(tokens_bits(s, tables) =~= token_bits(t, tables) + tokens_bits(rest, tables));
    }
}

/// A pixel is its four channels.
proof fn lemma_channels_determine(p: u32, q: u32)
    requires
        red_of(p) == red_of(q),
        green_of(p) == green_of(q),
        blue_of(p) == blue_of(q),
        alpha_of(p) == alpha_of(q),
    ensures
        p == q,
{
    assert(p == q) by (bit_vector)
        requires
            (p >> 24u32) as u8 == (q >> 24u32) as u8,
            (p >> 16u32) as u8 == (q >> 16u32) as u8,
            (p >> 8u32) as u8 == (q >> 8u32) as u8,
            p as u8 == q as u8,
    ;
}

/// Reading a prefix-coded value's extra bits: two values with the same
/// prefix code whose extra bits, each followed by more bits, agree are one
/// value, and what follows agrees.
proof fn lemma_extra_bits_parse(v: u32, w: u32, x: Seq<bool>, y: Seq<bool>)
    requires
        1 <= v <= 0xC000_0000,
        1 <= w <= 0xC000_0000,
        prefix_triple(v).0 == prefix_triple(w).0,
        bits_of(prefix_triple(v).2, prefix_triple(v).1 as nat) + x == bits_of(
            prefix_triple(w).2,
            prefix_triple(w).1 as nat,
        ) + y,
    ensures
        v == w,
        x == y,
{
    lemma_prefix_exists(v);
    lemma_prefix_exists(w);
    let tv = prefix_triple(v);
    let tw = prefix_triple(w);
    let n = tv.1;
    assert(n == tw.1);
    let pc = tv.0;
    if pc >= 4 {
        assert(((pc - 2) as u32) >> 1 <= 30) by (bit_vector)
            requires
                4 <= pc < 63,
        ;
    }
    assert(n <= 30);
    vstd::bits::lemma_u32_pow2_no_overflow(n as nat);
    vstd::bits::lemma_u32_shl_is_mul(1, n);
    let bv = bits_of(tv.2, n as nat);
    let bw = bits_of(tw.2, n as nat);
    assert((bv + x).take(n as int) =~= bv);
    assert((bw + y).take(n as int) =~= bw);
    assert((bv + x).skip(n as int) =~= x);
    assert((bw + y).skip(n as int) =~= y);
    lemma_bits_of_injective(tv.2, tw.2, n as nat);
}

/// Reading one token: where the bits of two coded tokens, each followed by
/// more bits, agree, the tokens are one and what follows agrees.
proof fn lemma_token_parse(
    t: Token,
    u: Token,
    tables: Seq<HuffmanTable>,
    x: Seq<bool>,
    y: Seq<bool>,
)
    requires
        code_group(tables),
        token_coded(t, tables),
        token_coded(u, tables),
        token_in_range(t),
        token_in_range(u),
        token_bits(t, tables) + x == token_bits(u, tables) + y,
    ensures
        t == u,
        x == y,
{
    lemma_token_bits_split(t, tables);
    lemma_token_bits_split(u, tables);
    let st = token_symbol(t, 0);
    let su = token_symbol(u, 0);
    let g = tables[0];
    assert(tables[0].wf());
    assert(st >= 0 && su >= 0) by {
        match t {
            Token::Literal(_) => {},
            Token::Match { .. } => {},
        }
        match u {
            Token::Literal(_) => {},
            Token::Match { .. } => {},
        }
    }
    assert(token_bits(t, tables) + x =~= g.symbol_bits(st) + (token_tail(t, tables) + x));
    assert(token_bits(u, tables) + y =~= g.symbol_bits(su) + (token_tail(u, tables) + y));
    lemma_symbol_bits_parse(g, st, su, token_tail(t, tables) + x, token_tail(u, tables) + y);
    match t {
        Token::Literal(p) => {
            match u {
                Token::Literal(q) => {
                    let r = tables[1];
                    let b = tables[2];
                    let a = tables[3];
                    assert(token_symbol(t, 1) >= 0 && token_symbol(u, 1) >= 0);
                    assert(token_symbol(t, 2) >= 0 && token_symbol(u, 2) >= 0);
                    assert(token_symbol(t, 3) >= 0 && token_symbol(u, 3) >= 0);
                    assert(r.wf() && b.wf() && a.wf());
                    let bp = b.symbol_bits(blue_of(p) as int);
                    let bq = b.symbol_bits(blue_of(q) as int);
                    let ap = a.symbol_bits(alpha_of(p) as int);
                    let aq = a.symbol_bits(alpha_of(q) as int);
                    assert(token_tail(t, tables) + x =~= r.symbol_bits(red_of(p) as int) + (bp + ap
                        + x));
                    assert(token_tail(u, tables) + y =~= r.symbol_bits(red_of(q) as int) + (bq + aq
                        + y));
                    lemma_symbol_bits_parse(
                        r,
                        red_of(p) as int,
                        red_of(q) as int,
                        bp + ap + x,
                        bq + aq + y,
                    );
                    assert(bp + ap + x =~= bp + (ap + x));
                    assert(bq + aq + y =~= bq + (aq + y));
                    lemma_symbol_bits_parse(b, blue_of(p) as int, blue_of(q) as int, ap + x, aq + y);
                    lemma_symbol_bits_parse(a, alpha_of(p) as int, alpha_of(q) as int, x, y);
                    lemma_channels_determine(p, q);
                },
                Token::Match { .. } => {
                    assert(false);
                },
            }
        },
        Token::Match { length, distance } => {
            match u {
                Token::Literal(_) => {
                    assert(false);
                },
                Token::Match { length: length2, distance: distance2 } => {
                    let d = tables[4];
                    assert(token_symbol(t, 4) >= 0 && token_symbol(u, 4) >= 0);
                    assert(d.wf());
                    let lt = prefix_triple(length);
                    let lu = prefix_triple(length2);
                    let dv = (distance + DISTANCE_TABLE_OFFSET) as u32;
                    let dw = (distance2 + DISTANCE_TABLE_OFFSET) as u32;
                    let dt = prefix_triple(dv);
                    let du = prefix_triple(dw);
                    let et = bits_of(dt.2, dt.1 as nat);
                    let eu = bits_of(du.2, du.1 as nat);
                    let mt = d.symbol_bits(dt.0 as int);
                    let mu = d.symbol_bits(du.0 as int);
                    assert(token_tail(t, tables) + x =~= bits_of(lt.2, lt.1 as nat) + (mt + et + x));
                    assert(token_tail(u, tables) + y =~= bits_of(lu.2, lu.1 as nat) + (mu + eu + y));
                    lemma_extra_bits_parse(length, length2, mt + et + x, mu + eu + y);
                    assert(mt + et + x =~= mt + (et + x));
                    assert(mu + eu + y =~= mu + (eu + y));
                    lemma_symbol_bits_parse(d, dt.0 as int, du.0 as int, et + x, eu + y);
                    lemma_extra_bits_parse(dv, dw, x, y);
                },
            }
        },
    }
}

/// Reading a token stream back: where the bits of two coded streams that
/// stand for equally many pixels, each followed by more bits, agree, the
/// streams are one and what follows agrees.
proof fn lemma_read_back(
    tokens1: Seq<Token>,
    tokens2: Seq<Token>,
    tables: Seq<HuffmanTable>,
    x: Seq<bool>,
    y: Seq<bool>,
)
    requires
        code_group(tables),
        in_range(tokens1),
        in_range(tokens2),
        coded(tokens1, tables),
        coded(tokens2, tables),
        tokens_len(tokens1) == tokens_len(tokens2),
        tokens_bits(tokens1, tables) + x == tokens_bits(tokens2, tables) + y,
    ensures
        tokens1 == tokens2,
        x == y,
    decreases tokens1.len(),
{
    if tokens1.len() == 0 || tokens2.len() == 0 {
        if tokens2.len() > 0 {
            assert(tokens2 =~= seq![tokens2[0]] + tokens2.skip(1));
            lemma_tokens_len_front(tokens2[0], tokens2.skip(1));
            assert(token_in_range(tokens2[0]));
        } else if tokens1.len() > 0 {
            assert(tokens1 =~= seq![tokens1[0]] + tokens1.skip(1));
            lemma_tokens_len_front(tokens1[0], tokens1.skip(1));
            assert(token_in_range(tokens1[0]));
        }
        assert(tokens1 =~= tokens2);
        assert(tokens_bits(tokens1, tables) + x =~= x);
        assert(tokens_bits(tokens2, tables) + y =~= y);
    } else {
        let t = tokens1[0];
        let u = tokens2[0];
        let r1 = tokens1.skip(1);
        let r2 = tokens2.skip(1);
        assert(tokens1 =~= seq![t] + r1);
        assert(tokens2 =~= seq![u] + r2);
        lemma_tokens_bits_front(t, r1, tables);
        lemma_tokens_bits_front(u, r2, tables);
        assert(token_in_range(tokens1[0]) && token_coded(tokens1[0], tables));
        assert(token_in_range(tokens2[0]) && token_coded(tokens2[0], tables));
        let xr = tokens_bits(r1, tables) + x;
        let yr = tokens_bits(r2, tables) + y;
        assert(tokens_bits(tokens1, tables) + x =~= token_bits(t, tables) + xr);
        assert(tokens_bits(tokens2, tables) + y =~= token_bits(u, tables) + yr);
        lemma_token_parse(t, u, tables, xr, yr);
        lemma_tokens_len_front(t, r1);
        lemma_tokens_len_front(u, r2);
        assert forall|k: int| 0 <= k < r1.len() implies token_in_range(#[trigger] r1[k])
            && token_coded(r1[k], tables) by {
            assert(r1[k] == tokens1[k + 1]);
        }
        assert forall|k: int| 0 <= k < r2.len() implies token_in_range(#[trigger] r2[k])
            && token_coded(r2[k], tables) by {
            assert(r2[k] == tokens2[k + 1]);
        }
        lemma_read_back(r1, r2, tables, x, y);
    }
}

/// The token stream can be read back from its bits: given a group of five
/// codes, two valid token streams whose symbols all have codes there, which
/// stand for equally many pixels and are written as the same bits, are one
/// stream, and decode to the same pixels.
pub proof fn law_tokens_read_back(tokens1: Seq<Token>, tokens2: Seq<Token>, tables: Seq<HuffmanTable>)
    requires
        code_group(tables),
        valid_tokens(tokens1),
        valid_tokens(tokens2),
        coded(tokens1, tables),
        coded(tokens2, tables),
        decode_tokens(tokens1).len() == decode_tokens(tokens2).len(),
        tokens_bits(tokens1, tables) == tokens_bits(tokens2, tables),
    ensures
        tokens1 == tokens2,
        decode_tokens(tokens1) == decode_tokens(tokens2),
{
    lemma_decoded_len(tokens1);
    lemma_decoded_len(tokens2);
    assert forall|k: int| 0 <= k < tokens1.len() implies token_in_range(#[trigger] tokens1[k]) by {
        assert(valid_tokens(tokens1));
    }
    assert forall|k: int| 0 <= k < tokens2.len() implies token_in_range(#[trigger] tokens2[k]) by {
        assert(valid_tokens(tokens2));
    }
    assert(tokens_bits(tokens1, tables) + Seq::<bool>::empty() =~= tokens_bits(tokens1, tables));
    assert(tokens_bits(tokens2, tables) + Seq::<bool>::empty() =~= tokens_bits(tokens2, tables));
    lemma_read_back(tokens1, tokens2, tables, Seq::empty(), Seq::empty());
}


/// The symbols a token stream puts in the five codes lie in their alphabets.
proof fn lemma_symbol_in_alphabet(t: Token, c: int)
    requires
        token_in_range(t),
        0 <= c < 5,
        token_symbol(t, c) >= 0,
    ensures
        token_symbol(t, c) < alphabet_size(c),
{
    lemma_alphabet_offsets();
    match t {
        Token::Literal(_) => {},
        Token::Match { length, distance } => {
            if c == 0 {
                lemma_prefix_exists(length);
                lemma_prefix_code_below(prefix_triple(length), length, 24);
            } else {
                let dv = (distance + DISTANCE_TABLE_OFFSET) as u32;
                lemma_prefix_exists(dv);
                lemma_prefix_code_below(prefix_triple(dv), dv, 40);
            }
        },
    }
}

/// Every symbol the tokens of an encoded body use has a code in its
/// tables.
proof fn lemma_body_coded(
    pixels: Seq<u32>,
    tokens: Seq<Token>,
    tables: Seq<HuffmanTable>,
    metas: Seq<HuffmanTable>,
    bits: Seq<bool>,
)
    requires
        vp8l_body_with(pixels, tokens, tables, metas, bits),
        pixels.len() < u32::MAX,
    ensures
        code_group(tables),
        coded(tokens, tables),
        in_range(tokens),
{
    lemma_tokens_len(tokens);
    assert forall|k: int| 0 <= k < tokens.len() implies token_in_range(#[trigger] tokens[k]) by {
        assert(valid_tokens(tokens));
    }
    assert forall|k: int| 0 <= k < tokens.len() implies token_coded(#[trigger] tokens[k], tables) by {
        assert forall|c: int| 0 <= c < 5 && #[trigger] token_symbol(tokens[k], c) >= 0 implies token_symbol(
            tokens[k],
            c,
        ) < tables[c].spec_lengths().len() && tables[c].spec_lengths()[token_symbol(tokens[k], c)]
            > 0 by {
            let sym = token_symbol(tokens[k], c);
            lemma_symbol_in_alphabet(tokens[k], c);
            lemma_symbol_count_pos(tokens, c, k);
            lemma_symbol_count_len(tokens, c, sym);
            let h = histogram_of(tokens, c);
            assert(h[sym] > 0);
            lemma_support_bound(h);
            assert(support(h).contains(sym));
            assert(support(h).len() > 0);
        }
    }
}

/// An encoded image reads back: after the five code descriptions, any valid
/// token stream with codes in the body's tables that the rest of the body's
/// bits spell, and that stands for as many pixels as the image, decodes to
/// the image.
pub proof fn law_body_reads_back(
    pixels: Seq<u32>,
    tokens: Seq<Token>,
    tables: Seq<HuffmanTable>,
    metas: Seq<HuffmanTable>,
    bits: Seq<bool>,
    read: Seq<Token>,
)
    requires
        vp8l_body_with(pixels, tokens, tables, metas, bits),
        pixels.len() < u32::MAX,
        valid_tokens(read),
        coded(read, tables),
        decode_tokens(read).len() == pixels.len(),
        bits == descriptions(tables, metas) + tokens_bits(read, tables),
    ensures
        decode_tokens(read) == pixels,
{
    lemma_body_coded(pixels, tokens, tables, metas, bits);
    let pre = descriptions(tables, metas);
    assert((pre + tokens_bits(read, tables)).skip(pre.len() as int) =~= tokens_bits(read, tables));
    assert((pre + tokens_bits(tokens, tables)).skip(pre.len() as int) =~= tokens_bits(
        tokens,
        tables,
    ));
    law_tokens_read_back(tokens, read, tables);
}


/// The meta codes of an encoded body code the lengths they describe.
proof fn lemma_body_metas(
    pixels: Seq<u32>,
    tokens: Seq<Token>,
    tables: Seq<HuffmanTable>,
    metas: Seq<HuffmanTable>,
    bits: Seq<bool>,
)
    requires
        vp8l_body_with(pixels, tokens, tables, metas, bits),
    ensures
        forall|c: int|
            0 <= c < 5 ==> meta_codes(#[trigger] metas[c], tables[c].spec_lengths(), alphabet_size(c)),
{
    assert forall|c: int| 0 <= c < 5 implies meta_codes(
        #[trigger] metas[c],
        tables[c].spec_lengths(),
        alphabet_size(c),
    ) by {
        assert(tables[c].wf());
        lemma_meta_codes(metas[c], tables[c].spec_lengths(), alphabet_size(c));
    }
}

/// Reading the five code descriptions back: where the descriptions of two
/// groups of codes, each followed by more bits, agree, the codes have the
/// same lengths and what follows agrees.
proof fn lemma_descriptions_parse(
    tab1: Seq<HuffmanTable>,
    m1: Seq<HuffmanTable>,
    tab2: Seq<HuffmanTable>,
    m2: Seq<HuffmanTable>,
    x: Seq<bool>,
    y: Seq<bool>,
)
    requires
        code_group(tab1),
        code_group(tab2),
        m1.len() == 5,
        m2.len() == 5,
        forall|c: int|
            0 <= c < 5 ==> meta_codes(#[trigger] m1[c], tab1[c].spec_lengths(), alphabet_size(c)),
        forall|c: int|
            0 <= c < 5 ==> meta_codes(#[trigger] m2[c], tab2[c].spec_lengths(), alphabet_size(c)),
        descriptions(tab1, m1) + x == descriptions(tab2, m2) + y,
    ensures
        forall|c: int| 0 <= c < 5 ==> (#[trigger] tab1[c]).spec_lengths() == tab2[c].spec_lengths(),
        x == y,
{
    let a0 = code_description(tab1[0].spec_lengths(), alphabet_size(0), m1[0]);
    let a1 = code_description(tab1[1].spec_lengths(), alphabet_size(1), m1[1]);
    let a2 = code_description(tab1[2].spec_lengths(), alphabet_size(2), m1[2]);
    let a3 = code_description(tab1[3].spec_lengths(), alphabet_size(3), m1[3]);
    let a4 = code_description(tab1[4].spec_lengths(), alphabet_size(4), m1[4]);
    let b0 = code_description(tab2[0].spec_lengths(), alphabet_size(0), m2[0]);
    let b1 = code_description(tab2[1].spec_lengths(), alphabet_size(1), m2[1]);
    let b2 = code_description(tab2[2].spec_lengths(), alphabet_size(2), m2[2]);
    let b3 = code_description(tab2[3].spec_lengths(), alphabet_size(3), m2[3]);
    let b4 = code_description(tab2[4].spec_lengths(), alphabet_size(4), m2[4]);
    assert(descriptions(tab1, m1) + x =~= a0 + (a1 + (a2 + (a3 + (a4 + x)))));
    assert(descriptions(tab2, m2) + y =~= b0 + (b1 + (b2 + (b3 + (b4 + y)))));
    assert(m1[0] == m1[0] && m2[0] == m2[0]);
    lemma_description_parse(
        tab1[0].spec_lengths(),
        tab2[0].spec_lengths(),
        alphabet_size(0),
        m1[0],
        m2[0],
        a1 + (a2 + (a3 + (a4 + x))),
        b1 + (b2 + (b3 + (b4 + y))),
    );
    assert(m1[1] == m1[1] && m2[1] == m2[1]);
    lemma_description_parse(
        tab1[1].spec_lengths(),
        tab2[1].spec_lengths(),
        alphabet_size(1),
        m1[1],
        m2[1],
        a2 + (a3 + (a4 + x)),
        b2 + (b3 + (b4 + y)),
    );
    assert(m1[2] == m1[2] && m2[2] == m2[2]);
    lemma_description_parse(
        tab1[2].spec_lengths(),
        tab2[2].spec_lengths(),
        alphabet_size(2),
        m1[2],
        m2[2],
        a3 + (a4 + x),
        b3 + (b4 + y),
    );
    assert(m1[3] == m1[3] && m2[3] == m2[3]);
    lemma_description_parse(
        tab1[3].spec_lengths(),
        tab2[3].spec_lengths(),
        alphabet_size(3),
        m1[3],
        m2[3],
        a4 + x,
        b4 + y,
    );
    assert(m1[4] == m1[4] && m2[4] == m2[4]);
    lemma_description_parse(
        tab1[4].spec_lengths(),
        tab2[4].spec_lengths(),
        alphabet_size(4),
        m1[4],
        m2[4],
        x,
        y,
    );
    assert forall|c: int| 0 <= c < 5 implies (#[trigger] tab1[c]).spec_lengths()
        == tab2[c].spec_lengths() by {
        let n = alphabet_size(c) as int;
        assert(tab1[c].spec_lengths().take(n) =~= tab1[c].spec_lengths());
        assert(tab2[c].spec_lengths().take(n) =~= tab2[c].spec_lengths());
    }
}

/// Codes with the same lengths write the same bits for a token stream.
proof fn lemma_tokens_bits_same_lengths(
    tokens: Seq<Token>,
    tab1: Seq<HuffmanTable>,
    tab2: Seq<HuffmanTable>,
)
    requires
        code_group(tab1),
        code_group(tab2),
        forall|c: int| 0 <= c < 5 ==> (#[trigger] tab1[c]).spec_lengths() == tab2[c].spec_lengths(),
        coded(tokens, tab1),
    ensures
        tokens_bits(tokens, tab1) == tokens_bits(tokens, tab2),
    decreases tokens.len(),
{
    if tokens.len() > 0 {
        let d = tokens.drop_last();
        assert forall|k: int| 0 <= k < d.len() implies token_coded(#[trigger] d[k], tab1) by {
            assert(d[k] == tokens[k]);
        }
        lemma_tokens_bits_same_lengths(d, tab1, tab2);
        let t = tokens.last();
        assert(token_coded(tokens[tokens.len() - 1], tab1));
        assert forall|c: int| 0 <= c < 5 && #[trigger] token_symbol(t, c) >= 0 implies tab1[c].symbol_bits(
            token_symbol(t, c),
        ) == tab2[c].symbol_bits(token_symbol(t, c)) by {
            assert(tab1[c].wf() && tab2[c].wf());
            lemma_same_lengths_same_bits(tab1[c], tab2[c], token_symbol(t, c));
        }
        match t {
            Token::Literal(_) => {
                assert(token_symbol(t, 0) >= 0 && token_symbol(t, 1) >= 0);
                assert(token_symbol(t, 2) >= 0 && token_symbol(t, 3) >= 0);
            },
            Token::Match { .. } => {
                assert(token_symbol(t, 0) >= 0 && token_symbol(t, 4) >= 0);
            },
        }
        assert(token_bits(t, tab1) == token_bits(t, tab2));
    }
}

/// Reading a body back: where two VP8L bodies of images with equally many
/// pixels, each followed by more bits, agree, the images are one and what
/// follows agrees.
proof fn lemma_body_parse(
    p1: Seq<u32>,
    t1: Seq<Token>,
    tab1: Seq<HuffmanTable>,
    m1: Seq<HuffmanTable>,
    bits1: Seq<bool>,
    p2: Seq<u32>,
    t2: Seq<Token>,
    tab2: Seq<HuffmanTable>,
    m2: Seq<HuffmanTable>,
    bits2: Seq<bool>,
    x: Seq<bool>,
    y: Seq<bool>,
)
    requires
        vp8l_body_with(p1, t1, tab1, m1, bits1),
        vp8l_body_with(p2, t2, tab2, m2, bits2),
        p1.len() == p2.len(),
        p1.len() < u32::MAX,
        bits1 + x == bits2 + y,
    ensures
        p1 == p2,
        x == y,
{
    lemma_body_coded(p1, t1, tab1, m1, bits1);
    lemma_body_coded(p2, t2, tab2, m2, bits2);
    lemma_body_metas(p1, t1, tab1, m1, bits1);
    lemma_body_metas(p2, t2, tab2, m2, bits2);
    let r1 = tokens_bits(t1, tab1) + x;
    let r2 = tokens_bits(t2, tab2) + y;
    assert(bits1 + x =~= descriptions(tab1, m1) + r1);
    assert(bits2 + y =~= descriptions(tab2, m2) + r2);
    lemma_descriptions_parse(tab1, m1, tab2, m2, r1, r2);
    assert forall|k: int| 0 <= k < t2.len() implies token_coded(#[trigger] t2[k], tab1) by {
        assert(token_coded(t2[k], tab2));
        assert forall|c: int| 0 <= c < 5 && #[trigger] token_symbol(t2[k], c) >= 0 implies token_symbol(
            t2[k],
            c,
        ) < tab1[c].spec_lengths().len() && tab1[c].spec_lengths()[token_symbol(t2[k], c)] > 0 by {
            assert(tab1[c].spec_lengths() == tab2[c].spec_lengths());
        }
    }
    assert forall|c: int| 0 <= c < 5 implies (#[trigger] tab2[c]).spec_lengths()
        == tab1[c].spec_lengths() by {
        assert(tab1[c].spec_lengths() == tab2[c].spec_lengths());
    }
    lemma_tokens_bits_same_lengths(t2, tab2, tab1);
    lemma_decoded_len(t1);
    lemma_decoded_len(t2);
    lemma_read_back(t1, t2, tab1, x, y);
}

/// Encoding is lossless: the same bits are never the VP8L bodies of two
/// different images with equally many pixels. The five code descriptions
/// fix the codes, and the codes and the bits after them fix the tokens,
/// and so the pixels.
pub proof fn law_body_lossless(
    p1: Seq<u32>,
    t1: Seq<Token>,
    tab1: Seq<HuffmanTable>,
    m1: Seq<HuffmanTable>,
    p2: Seq<u32>,
    t2: Seq<Token>,
    tab2: Seq<HuffmanTable>,
    m2: Seq<HuffmanTable>,
    bits: Seq<bool>,
)
    requires
        vp8l_body_with(p1, t1, tab1, m1, bits),
        vp8l_body_with(p2, t2, tab2, m2, bits),
        p1.len() == p2.len(),
        p1.len() < u32::MAX,
    ensures
        p1 == p2,
{
    lemma_body_parse(p1, t1, tab1, m1, bits, p2, t2, tab2, m2, bits, Seq::empty(), Seq::empty());
}


/// Reading the VP8L header back: where two headers of images of 1 to
/// 16384 pixels a side, each followed by more bits, agree, the sizes and
/// alpha hints agree and so does what follows.
proof fn lemma_header_parse(
    w1: u32,
    h1: u32,
    a1: bool,
    w2: u32,
    h2: u32,
    a2: bool,
    x: Seq<bool>,
    y: Seq<bool>,
)
    requires
        1 <= w1 <= MAX_DIMENSION,
        1 <= h1 <= MAX_DIMENSION,
        1 <= w2 <= MAX_DIMENSION,
        1 <= h2 <= MAX_DIMENSION,
        vp8l_header(w1, h1, a1) + x == vp8l_header(w2, h2, a2) + y,
    ensures
        w1 == w2,
        h1 == h2,
        x == y,
{
    let g1 = vp8l_header(w1, h1, a1);
    let g2 = vp8l_header(w2, h2, a2);
    assert(g1.len() == 43 && g2.len() == 43);
    assert((g1 + x).take(43) =~= g1);
    assert((g2 + y).take(43) =~= g2);
    assert((g1 + x).skip(43) =~= x);
    assert((g2 + y).skip(43) =~= y);
    assert(g1.subrange(8, 22) =~= bits_of((w1 - 1) as u32, 14));
    assert(g2.subrange(8, 22) =~= bits_of((w2 - 1) as u32, 14));
    assert(g1.subrange(22, 36) =~= bits_of((h1 - 1) as u32, 14));
    assert(g2.subrange(22, 36) =~= bits_of((h2 - 1) as u32, 14));
    vstd::arithmetic::power2::lemma2_to64();
    lemma_bits_of_injective((w1 - 1) as u32, (w2 - 1) as u32, 14);
    lemma_bits_of_injective((h1 - 1) as u32, (h2 - 1) as u32, 14);
}

/// The bits of a RIFF file's VP8L chunk, read from its bytes: the chunk's
/// bits, then zeros.
proof fn lemma_riff_bits(bits: Seq<bool>)
    ensures
        exists|n: nat|
            unpacked_bits(riff_webp(packed_bytes(bits)).skip(20)) == #[trigger] (bits + zero_bits(n)),
{
    let d = packed_bytes(bits);
    let pad: Seq<u8> = if d.len() % 2 == 1 {
        seq![0u8]
    } else {
        Seq::empty()
    };
    assert(riff_webp(d).skip(20) =~= d + pad);
    lemma_unpacked_concat(d, pad);
    lemma_unpack_packed(bits);
    let k = (unpacked_bits(d).len() - bits.len()) as nat;
    if d.len() % 2 == 1 {
        lemma_unpacked_zero_byte();
        assert(unpacked_bits(d + pad) =~= bits + zero_bits(k + 8));
    } else {
        assert(unpacked_bits(pad) =~= Seq::<bool>::empty());
        assert(unpacked_bits(d + pad) =~= bits + zero_bits(k));
    }
}

/// The pixels packed from RGBA bytes fix the bytes.
proof fn lemma_packed_pixels_injective(px1: Seq<u8>, px2: Seq<u8>)
    requires
        px1.len() == px2.len(),
        px1.len() % 4 == 0,
        packed_pixels(px1) == packed_pixels(px2),
    ensures
        px1 == px2,
{
    assert forall|j: int| 0 <= j < px1.len() implies px1[j] == px2[j] by {
        let i = j / 4;
        assert(0 <= i < px1.len() / 4 && 4 * i <= j < 4 * i + 4 && 4 * i + 3 < px1.len())
            by (nonlinear_arith)
            requires
                0 <= j < px1.len(),
                i == j / 4,
                px1.len() % 4 == 0,
        ;
        let k1 = pack(px1[4 * i], px1[4 * i + 1], px1[4 * i + 2], px1[4 * i + 3]);
        let k2 = pack(px2[4 * i], px2[4 * i + 1], px2[4 * i + 2], px2[4 * i + 3]);
        assert(packed_pixels(px1)[i] == k1);
        assert(packed_pixels(px2)[i] == k2);
        lemma_unpack_pack(px1[4 * i], px1[4 * i + 1], px1[4 * i + 2], px1[4 * i + 3]);
        lemma_unpack_pack(px2[4 * i], px2[4 * i + 1], px2[4 * i + 2], px2[4 * i + 3]);
        if j == 4 * i {
            assert(red_of(k1) == red_of(k2));
        } else if j == 4 * i + 1 {
            assert(green_of(k1) == green_of(k2));
        } else if j == 4 * i + 2 {
            assert(blue_of(k1) == blue_of(k2));
        } else {
            assert(alpha_of(k1) == alpha_of(k2));
        }
    }
    assert(px1 =~= px2);
}

/// What an encoding's bytes hold: after the 20 bytes of the RIFF header,
/// the bits of the VP8L header, of a body of the image, then zeros.
proof fn lemma_encoded_bits(w: u32, h: u32, px: Seq<u8>, bytes: Vec<u8>) -> (r: (Seq<bool>, nat))
    requires
        webp_result(w, h, px, Ok(bytes)),
    ensures
        1 <= w <= MAX_DIMENSION,
        1 <= h <= MAX_DIMENSION,
        vp8l_body(packed_pixels(px), r.0),
        unpacked_bits(bytes@.skip(20)) == vp8l_header(w, h, alpha_used(px)) + (r.0 + zero_bits(r.1)),
{
    let body = choose|body: Seq<bool>|
        {
            &&& vp8l_body(packed_pixels(px), body)
            &&& #[trigger] riff_webp(packed_bytes(vp8l_header(w, h, alpha_used(px)) + body))
                == bytes@
        };
    let g = vp8l_header(w, h, alpha_used(px));
    lemma_riff_bits(g + body);
    let n = choose|n: nat| unpacked_bits(bytes@.skip(20)) == #[trigger] ((g + body) + zero_bits(n));
    assert((g + body) + zero_bits(n) =~= g + (body + zero_bits(n)));
    (body, n)
}

/// An image of 1 to 16384 pixels a side, four bytes a pixel.
proof fn lemma_pixel_count(w: u32, h: u32, px: Seq<u8>)
    requires
        1 <= w <= MAX_DIMENSION,
        1 <= h <= MAX_DIMENSION,
        px.len() == 4 * w * h,
    ensures
        px.len() % 4 == 0,
        packed_pixels(px).len() == w * h,
        w * h < u32::MAX,
{
    let k = w * h;
    assert(4 * w * h == 4 * k) by (nonlinear_arith)
        requires
            k == w * h,
    ;
    assert(k <= 16384 * 16384) by (nonlinear_arith)
        requires
            1 <= w <= 16384,
            1 <= h <= 16384,
            k == w * h,
    ;
    vstd::arithmetic::div_mod::lemma_div_multiples_vanish(k, 4);
    vstd::arithmetic::div_mod::lemma_mod_multiples_basic(k, 4);
    assert(k * 4 == 4 * k);
}

/// Encoding is lossless: two images, of RGBA bytes four per pixel, whose
/// WebP encodings are the same bytes have the same size and the same
/// pixels.
pub proof fn law_encoding_lossless(
    w1: u32,
    h1: u32,
    px1: Seq<u8>,
    w2: u32,
    h2: u32,
    px2: Seq<u8>,
    bytes: Vec<u8>,
)
    requires
        px1.len() == 4 * w1 * h1,
        px2.len() == 4 * w2 * h2,
        webp_result(w1, h1, px1, Ok(bytes)),
        webp_result(w2, h2, px2, Ok(bytes)),
    ensures
        w1 == w2,
        h1 == h2,
        px1 == px2,
{
    let (body1, n1) = lemma_encoded_bits(w1, h1, px1, bytes);
    let (body2, n2) = lemma_encoded_bits(w2, h2, px2, bytes);
    lemma_image_bits_parse(w1, h1, px1, body1, n1, w2, h2, px2, body2, n2);
}

/// Reading an image back from the bits after the RIFF header: where the
/// headers and bodies of two images, each followed by zeros, agree, so do
/// the sizes and the pixels.
proof fn lemma_image_bits_parse(
    w1: u32,
    h1: u32,
    px1: Seq<u8>,
    body1: Seq<bool>,
    n1: nat,
    w2: u32,
    h2: u32,
    px2: Seq<u8>,
    body2: Seq<bool>,
    n2: nat,
)
    requires
        1 <= w1 <= MAX_DIMENSION,
        1 <= h1 <= MAX_DIMENSION,
        1 <= w2 <= MAX_DIMENSION,
        1 <= h2 <= MAX_DIMENSION,
        px1.len() == 4 * w1 * h1,
        px2.len() == 4 * w2 * h2,
        vp8l_body(packed_pixels(px1), body1),
        vp8l_body(packed_pixels(px2), body2),
        vp8l_header(w1, h1, alpha_used(px1)) + (body1 + zero_bits(n1)) == vp8l_header(
            w2,
            h2,
            alpha_used(px2),
        ) + (body2 + zero_bits(n2)),
    ensures
        w1 == w2,
        h1 == h2,
        px1 == px2,
{
    lemma_header_parse(
        w1,
        h1,
        alpha_used(px1),
        w2,
        h2,
        alpha_used(px2),
        body1 + zero_bits(n1),
        body2 + zero_bits(n2),
    );
    let q1 = packed_pixels(px1);
    let q2 = packed_pixels(px2);
    let (t1, tab1, m1) = choose|t: Seq<Token>, tab: Seq<HuffmanTable>, m: Seq<HuffmanTable>|
        vp8l_body_with(q1, t, tab, m, body1);
    let (t2, tab2, m2) = choose|t: Seq<Token>, tab: Seq<HuffmanTable>, m: Seq<HuffmanTable>|
        vp8l_body_with(q2, t, tab, m, body2);
    lemma_pixel_count(w1, h1, px1);
    lemma_pixel_count(w2, h2, px2);
    lemma_body_parse(q1, t1, tab1, m1, body1, q2, t2, tab2, m2, body2, zero_bits(n1), zero_bits(n2));
    lemma_packed_pixels_injective(px1, px2);
}


/// A code's lengths described with either of two meta codes of the same
/// lengths are the same bits.
proof fn lemma_description_same(l: Seq<u8>, n: nat, ma: HuffmanTable, mb: HuffmanTable)
    requires
        ma.wf(),
        mb.wf(),
        ma.spec_lengths() == mb.spec_lengths(),
        n <= l.len(),
        forall|i: int| 0 <= i < n ==> (l[i] as int) < ma.spec_lengths().len(),
    ensures
        code_description(l, n, ma) == code_description(l, n, mb),
{
    lemma_symbols_same_tables(ma, mb, l, n);
}

/// Encoding is deterministic: an image has one VP8L body. Its tokens are
/// the greedy ones, and its codes and meta codes are fixed by their
/// histograms, so the bits are too.
pub proof fn law_body_unique(
    pixels: Seq<u32>,
    t1: Seq<Token>,
    tab1: Seq<HuffmanTable>,
    m1: Seq<HuffmanTable>,
    bits1: Seq<bool>,
    t2: Seq<Token>,
    tab2: Seq<HuffmanTable>,
    m2: Seq<HuffmanTable>,
    bits2: Seq<bool>,
)
    requires
        vp8l_body_with(pixels, t1, tab1, m1, bits1),
        vp8l_body_with(pixels, t2, tab2, m2, bits2),
        pixels.len() < u32::MAX,
    ensures
        bits1 == bits2,
{
    lemma_body_coded(pixels, t1, tab1, m1, bits1);
    assert(t1 == t2);
    assert forall|c: int| 0 <= c < 5 implies (#[trigger] tab1[c]).spec_lengths() == tab2[c].spec_lengths() by {
        assert(tab1[c].wf() && tab2[c].wf());
        let l1 = tab1[c].spec_lengths();
        let l2 = tab2[c].spec_lengths();
        assert forall|i: int| 0 <= i < l1.len() implies l1[i] == l2[i] by {
            assert(l1[i] as int == crate::webp::huffman::huffman_lengths(histogram_of(t1, c), 15)[i]);
            assert(l2[i] as int == crate::webp::huffman::huffman_lengths(histogram_of(t1, c), 15)[i]);
        }
        assert(l1 =~= l2);
    }
    assert forall|c: int| 0 <= c < 5 implies (#[trigger] m1[c]).spec_lengths() == m2[c].spec_lengths()
        && m1[c].wf() && m2[c].wf() && m1[c].spec_lengths().len() == 19 by {
        assert(tab1[c].wf() && tab2[c].wf());
        let mh = meta_histogram(tab1[c].spec_lengths(), alphabet_size(c));
        assert(tab1[c].spec_lengths() == tab2[c].spec_lengths());
        let l1 = m1[c].spec_lengths();
        let l2 = m2[c].spec_lengths();
        assert forall|i: int| 0 <= i < l1.len() implies l1[i] == l2[i] by {
            assert(l1[i] as int == crate::webp::huffman::huffman_lengths(mh, 7)[i]);
            assert(l2[i] as int == crate::webp::huffman::huffman_lengths(mh, 7)[i]);
        }
        assert(l1 =~= l2);
    }
    assert forall|c: int| 0 <= c < 5 implies code_description(
        (#[trigger] tab1[c]).spec_lengths(),
        alphabet_size(c),
        m1[c],
    ) == code_description(tab2[c].spec_lengths(), alphabet_size(c), m2[c]) by {
        assert(tab1[c].wf() && tab2[c].wf() && m1[c].wf() && m2[c].wf());
        assert(m1[c].spec_lengths() == m2[c].spec_lengths());
        assert(tab1[c].spec_lengths() == tab2[c].spec_lengths());
        lemma_description_same(tab1[c].spec_lengths(), alphabet_size(c), m1[c], m2[c]);
    }
    assert(tab1[0] == tab1[0] && tab1[1] == tab1[1] && tab1[2] == tab1[2] && tab1[3] == tab1[3]
        && tab1[4] == tab1[4]);
    assert(descriptions(tab1, m1) == descriptions(tab2, m2));
    lemma_tokens_bits_same_lengths(t1, tab1, tab2);
}

/// Encoding is deterministic: an image of RGBA bytes has one WebP
/// encoding.
pub proof fn law_encoding_deterministic(
    width: u32,
    height: u32,
    px: Seq<u8>,
    bytes1: Vec<u8>,
    bytes2: Vec<u8>,
)
    requires
        px.len() == 4 * width * height,
        webp_result(width, height, px, Ok(bytes1)),
        webp_result(width, height, px, Ok(bytes2)),
    ensures
        bytes1@ == bytes2@,
{
    let b1 = choose|body: Seq<bool>|
        {
            &&& vp8l_body(packed_pixels(px), body)
            &&& #[trigger] riff_webp(packed_bytes(vp8l_header(width, height, alpha_used(px)) + body))
                == bytes1@
        };
    let b2 = choose|body: Seq<bool>|
        {
            &&& vp8l_body(packed_pixels(px), body)
            &&& #[trigger] riff_webp(packed_bytes(vp8l_header(width, height, alpha_used(px)) + body))
                == bytes2@
        };
    let q = packed_pixels(px);
    let (t1, tab1, m1) = choose|t: Seq<Token>, tab: Seq<HuffmanTable>, m: Seq<HuffmanTable>|
        vp8l_body_with(q, t, tab, m, b1);
    let (t2, tab2, m2) = choose|t: Seq<Token>, tab: Seq<HuffmanTable>, m: Seq<HuffmanTable>|
        vp8l_body_with(q, t, tab, m, b2);
    lemma_pixel_count(width, height, px);
    law_body_unique(q, t1, tab1, m1, b1, t2, tab2, m2, b2);
}

} // verus!
