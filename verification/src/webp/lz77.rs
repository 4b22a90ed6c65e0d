use vstd::prelude::*;

use std::collections::HashMap;

verus! {

broadcast use vstd::std_specs::hash::group_hash_axioms;

/// The shortest backward reference worth emitting.
pub const MIN_MATCH: usize = 3;

/// The longest backward reference VP8L's length alphabet can express.
pub const MAX_MATCH: usize = 4096;

/// How many earlier occurrences of a pixel value are tried per position.
pub const MAX_CHAIN: usize = 32;

/// VP8L's backward-reference distance is transmitted as
/// `flat_pixel_distance + 120` (see the `webp` module for why this project
/// always skips the special short-distance offset table), and that raw
/// value has to fit the 40-slot distance prefix-code alphabet, whose
/// largest slot covers up to 1_048_576. So the matcher's window is capped
/// accordingly.
pub const MAX_DISTANCE_WINDOW: usize = 1_048_456;

/// One step of the LZ77-style token stream: a literal pixel, or a copy of
/// `length` pixels from `distance` pixels back.
#[derive(Clone, Copy, Debug, PartialEq, Eq, Structural)]
pub enum Token {
    Literal(u32),
    Match { length: u32, distance: u32 },
}

/// `out` extended by copying `length` pixels, one at a time, from
/// `distance` pixels back (a copy may overlap the pixels it produces).
pub open spec fn copy_match(out: Seq<u32>, length: nat, distance: int) -> Seq<u32>
    decreases length,
{
    if length == 0 {
        out
    } else {
        let o = copy_match(out, (length - 1) as nat, distance);
        o.push(o[o.len() - distance])
    }
}

/// The pixels a token stream decodes to.
pub open spec fn decode_tokens(tokens: Seq<Token>) -> Seq<u32>
    decreases tokens.len(),
{
    if tokens.len() == 0 {
        Seq::empty()
    } else {
        let out = decode_tokens(tokens.drop_last());
        match tokens.last() {
            Token::Literal(v) => out.push(v),
            Token::Match { length, distance } => copy_match(out, length as nat, distance as int),
        }
    }
}

/// Every match is 3..=4096 pixels long and reaches back 1..=1_048_456
/// pixels, never before the start of the decoded output.
pub open spec fn valid_tokens(tokens: Seq<Token>) -> bool {
    forall|k: int|
        0 <= k < tokens.len() ==> match #[trigger] tokens[k] {
            Token::Literal(_) => true,
            Token::Match { length, distance } => {
                &&& MIN_MATCH <= length <= MAX_MATCH
                &&& 1 <= distance <= MAX_DISTANCE_WINDOW
                &&& distance <= decode_tokens(tokens.take(k)).len()
            },
        }
}

proof fn lemma_copy_match_len(out: Seq<u32>, length: nat, distance: int)
    ensures
        copy_match(out, length, distance).len() == out.len() + length,
    decreases length,
{
    if length > 0 {
        lemma_copy_match_len(out, (length - 1) as nat, distance);
    }
}

/// Copying from `distance` back reproduces a run of pixels that repeats
/// the pixels `distance` before it.
proof fn lemma_copy_match_run(pixels: Seq<u32>, i: int, length: nat, distance: int)
    requires
        1 <= distance <= i,
        i + length <= pixels.len(),
        forall|j: int| 0 <= j < length ==> #[trigger] pixels[i + j] == pixels[i - distance + j],
    ensures
        copy_match(pixels.take(i), length, distance) == pixels.take(i + length),
    decreases length,
{
    if length > 0 {
        let m = (length - 1) as nat;
        lemma_copy_match_run(pixels, i, m, distance);
        lemma_copy_match_len(pixels.take(i), m, distance);
        let o = pixels.take(i + m);
        assert(pixels[i + m] == pixels[i - distance + m]);
        assert(o.push(o[o.len() - distance]) =~= pixels.take(i + length));
    }
}

/// The latest position before `q` holding `v`, or -1.
pub open spec fn latest_before(pixels: Seq<u32>, v: u32, q: int) -> int
    decreases q,
{
    if q <= 0 {
        -1
    } else if pixels[q - 1] == v {
        q - 1
    } else {
        latest_before(pixels, v, q - 1)
    }
}

/// How many pixels from `i + len` on repeat those from `p + len` on, up to
/// `max` in all.
pub open spec fn common_run(pixels: Seq<u32>, p: int, i: int, len: int, max: int) -> int
    decreases max - len,
{
    if len < max && pixels[p + len] == pixels[i + len] {
        common_run(pixels, p, i, len + 1, max)
    } else {
        len
    }
}

/// The longest match for position `i` among the earlier occurrences of its
/// pixel from `cand` back, `tries` of the `MAX_CHAIN` tried already and
/// none further back than `MAX_DISTANCE_WINDOW`: (length, distance), the
/// nearest kept on a tie, starting from `best`.
pub open spec fn best_match(pixels: Seq<u32>, i: int, cand: int, tries: int, best: (int, int)) -> (
    int,
    int,
)
    decreases MAX_CHAIN - tries,
{
    if cand < 0 || tries >= MAX_CHAIN || tries < 0 || i - cand > MAX_DISTANCE_WINDOW {
        best
    } else {
        let max = if pixels.len() - i < MAX_MATCH {
            pixels.len() - i
        } else {
            MAX_MATCH as int
        };
        let len = common_run(pixels, cand, i, 0, max);
        let b = if len > best.0 {
            (len, i - cand)
        } else {
            best
        };
        best_match(pixels, i, latest_before(pixels, pixels[i], cand), tries + 1, b)
    }
}

/// The match the finder takes at position `i`.
pub open spec fn match_at(pixels: Seq<u32>, i: int) -> (int, int) {
    best_match(pixels, i, latest_before(pixels, pixels[i], i), 0, (0, 0))
}

/// The tokens the greedy finder emits from position `i` on: a copy where
/// the match at `i` is at least `MIN_MATCH` long, else a literal.
pub open spec fn greedy_from(pixels: Seq<u32>, i: int) -> Seq<Token>
    decreases pixels.len() - i,
{
    if i < 0 || i >= pixels.len() {
        Seq::empty()
    } else {
        let m = match_at(pixels, i);
        if m.0 >= MIN_MATCH && i + m.0 <= pixels.len() {
            seq![Token::Match { length: m.0 as u32, distance: m.1 as u32 }] + greedy_from(
                pixels,
                i + m.0,
            )
        } else {
            seq![Token::Literal(pixels[i])] + greedy_from(pixels, i + 1)
        }
    }
}

/// The latest position before `q` holding `v` does hold it, and is the
/// latest.
proof fn lemma_latest_before(pixels: Seq<u32>, v: u32, q: int)
    requires
        q <= pixels.len(),
    ensures
        -1 <= latest_before(pixels, v, q) < q || (q <= 0 && latest_before(pixels, v, q) == -1),
        latest_before(pixels, v, q) >= 0 ==> pixels[latest_before(pixels, v, q)] == v,
    decreases q,
{
    if q > 0 {
        lemma_latest_before(pixels, v, q - 1);
    }
}

/// Greedy hash-chain LZ77-style match finder over whole pixels (VP8L
/// backward references copy pixels, not bytes). Not globally optimal --
/// each position tries up to `MAX_CHAIN` prior occurrences of the same
/// pixel value and keeps the longest -- but that's enough to capture the
/// dominant case for this renderer's output: long runs of flat color.
#[verifier::rlimit(60)]
pub fn find_tokens(pixels: &[u32]) -> (tokens: Vec<Token>)
    requires
        pixels.len() < i64::MAX,
    ensures
        decode_tokens(tokens@) == pixels@,
        valid_tokens(tokens@),
        tokens@ == greedy_from(pixels@, 0),
{
    let n = pixels.len();
    let mut last: HashMap<u32, usize> = HashMap::new();
    let mut prev: Vec<i64> = vec![-1i64; n];
    let mut tokens: Vec<Token> = Vec::new();

    let mut i: usize = 0;
    while i < n
        invariant
            n == pixels.len(),
            n < i64::MAX,
            i <= n,
            prev.len() == n,
            forall|q: int| 0 <= q < i ==> -1 <= #[trigger] prev[q] < q,
            forall|v: u32| #[trigger] last@.contains_key(v) ==> last@[v] < i,
            decode_tokens(tokens@) == pixels@.take(i as int),
            valid_tokens(tokens@),
            forall|q: int| 0 <= q < i ==> #[trigger] prev[q] == latest_before(pixels@, pixels@[q], q),
            forall|v: u32| #[trigger] last@.contains_key(v) <==> latest_before(pixels@, v, i as int) >= 0,
            forall|v: u32| #[trigger] last@.contains_key(v) ==> last@[v] == latest_before(pixels@, v, i as int),
            tokens@ + greedy_from(pixels@, i as int) == greedy_from(pixels@, 0),
        decreases n - i,
    {
        let value = pixels[i];
        let mut best_len: usize = 0;
        let mut best_dist: usize = 0;
        proof {
            lemma_latest_before(pixels@, value, i as int);
        }

        match last.get(&value) {
            Some(start_ref) => {
                let start = *start_ref;
                let mut candidate: i64 = start as i64;
                let mut tries: usize = 0;
                while candidate >= 0 && tries < MAX_CHAIN
                    invariant
                        n == pixels.len(),
                        n < i64::MAX,
                        i < n,
                        prev.len() == n,
                        forall|q: int| 0 <= q < i ==> -1 <= #[trigger] prev[q] < q,
                        -1 <= candidate < i,
                        best_len <= n - i,
                        best_len <= MAX_MATCH,
                        best_len > 0 ==> 1 <= best_dist <= i && best_dist <= MAX_DISTANCE_WINDOW,
                        forall|j: int|
                            0 <= j < best_len ==> #[trigger] pixels[i + j] == pixels[i - best_dist
                                + j],
                        forall|q: int| 0 <= q < i ==> #[trigger] prev[q] == latest_before(pixels@, pixels@[q], q),
                        candidate >= 0 ==> pixels@[candidate as int] == value,
                        value == pixels@[i as int],
                        tries <= MAX_CHAIN,
                        best_match(pixels@, i as int, candidate as int, tries as int, (best_len as int, best_dist as int))
                            == match_at(pixels@, i as int),
                    ensures
                        best_len <= n - i,
                        best_len <= MAX_MATCH,
                        best_len > 0 ==> 1 <= best_dist <= i && best_dist <= MAX_DISTANCE_WINDOW,
                        forall|j: int|
                            0 <= j < best_len ==> #[trigger] pixels[i + j] == pixels[i - best_dist
                                + j],
                        (best_len as int, best_dist as int) == match_at(pixels@, i as int),
                    decreases MAX_CHAIN - tries,
                {
                    let p = candidate as usize;
                    if i - p > MAX_DISTANCE_WINDOW {
                        break;
                    }
                    let max_len = if n - i < MAX_MATCH {
                        n - i
                    } else {
                        MAX_MATCH
                    };
                    let mut len: usize = 0;
                    while len < max_len && pixels[p + len] == pixels[i + len]
                        invariant
                            n == pixels.len(),
                            p < i,
                            i + max_len <= n,
                            len <= max_len,
                            forall|j: int| 0 <= j < len ==> #[trigger] pixels[i + j] == pixels[p + j],
                            common_run(pixels@, p as int, i as int, 0, max_len as int) == common_run(
                                pixels@,
                                p as int,
                                i as int,
                                len as int,
                                max_len as int,
                            ),
                        decreases max_len - len,
                    {
                        len += 1;
                    }
                    proof {
                        lemma_latest_before(pixels@, value, p as int);
                    }
                    if len > best_len {
                        best_len = len;
                        best_dist = i - p;
                        assert forall|j: int| 0 <= j < best_len implies #[trigger] pixels[i + j]
                            == pixels[i - best_dist + j] by {
                            assert(i - best_dist + j == p + j);
                        }
                    }
                    candidate = prev[p];
                    tries += 1;
                }
            },
            None => {},
        }

        if best_len >= MIN_MATCH {
            let ghost old_tokens = tokens@;
            tokens.push(Token::Match { length: best_len as u32, distance: best_dist as u32 });
            proof {
                assert(tokens@ + greedy_from(pixels@, i + best_len) =~= old_tokens + greedy_from(
                    pixels@,
                    i as int,
                ));
                assert(tokens@.drop_last() == old_tokens);
                lemma_copy_match_run(pixels@, i as int, best_len as nat, best_dist as int);
                assert(tokens@.take(old_tokens.len() as int) == old_tokens);
                assert forall|k: int| 0 <= k < tokens@.len() implies match #[trigger] tokens@[k] {
                    Token::Literal(_) => true,
                    Token::Match { length, distance } => {
                        &&& MIN_MATCH <= length <= MAX_MATCH
                        &&& 1 <= distance <= MAX_DISTANCE_WINDOW
                        &&& distance <= decode_tokens(tokens@.take(k)).len()
                    },
                } by {
                    if k < old_tokens.len() {
                        assert(tokens@.take(k) == old_tokens.take(k));
                        assert(tokens@[k] == old_tokens[k]);
                    }
                }
            }
            let mut k: usize = 0;
            while k < best_len
                invariant
                    n == pixels.len(),
                    n < i64::MAX,
                    i + best_len <= n,
                    k <= best_len,
                    prev.len() == n,
                    forall|q: int| 0 <= q < i + k ==> -1 <= #[trigger] prev[q] < q,
                    forall|v: u32| #[trigger] last@.contains_key(v) ==> last@[v] < i + k,
                    forall|q: int| 0 <= q < i + k ==> #[trigger] prev[q] == latest_before(pixels@, pixels@[q], q),
                    forall|v: u32| #[trigger] last@.contains_key(v) <==> latest_before(pixels@, v, i + k) >= 0,
                    forall|v: u32| #[trigger] last@.contains_key(v) ==> last@[v] == latest_before(pixels@, v, i + k),
                decreases best_len - k,
            {
                let pos = i + k;
                let v = pixels[pos];
                proof {
                    lemma_latest_before(pixels@, v, pos as int);
                }
                let pv: i64 = match last.get(&v) {
                    Some(p) => *p as i64,
                    None => -1,
                };
                prev.set(pos, pv);
                last.insert(v, pos);
                k += 1;
            }
            i += best_len;
        } else {
            let ghost old_tokens = tokens@;
            tokens.push(Token::Literal(value));
            proof {
                assert(tokens@ + greedy_from(pixels@, i + 1) =~= old_tokens + greedy_from(
                    pixels@,
                    i as int,
                ));
                assert(tokens@.drop_last() == old_tokens);
                assert(pixels@.take(i + 1) =~= pixels@.take(i as int).push(value));
                assert forall|k: int| 0 <= k < tokens@.len() implies match #[trigger] tokens@[k] {
                    Token::Literal(_) => true,
                    Token::Match { length, distance } => {
                        &&& MIN_MATCH <= length <= MAX_MATCH
                        &&& 1 <= distance <= MAX_DISTANCE_WINDOW
                        &&& distance <= decode_tokens(tokens@.take(k)).len()
                    },
                } by {
                    if k < old_tokens.len() {
                        assert(tokens@.take(k) == old_tokens.take(k));
                        assert(tokens@[k] == old_tokens[k]);
                    }
                }
            }
            proof {
                lemma_latest_before(pixels@, value, i as int);
            }
            let pv: i64 = match last.get(&value) {
                Some(p) => *p as i64,
                None => -1,
            };
            prev.set(i, pv);
            last.insert(value, i);
            i += 1;
        }
    }
    assert(pixels@.take(n as int) =~= pixels@);
    assert(tokens@ + greedy_from(pixels@, n as int) =~= tokens@);
    tokens
}

/// The extra-bits count of prefix code `prefix_code` (codes 0..4 have
/// none).
pub open spec fn prefix_extra_bits(prefix_code: u32) -> u32 {
    if prefix_code < 4 {
        0
    } else {
        ((prefix_code - 2) as u32) >> 1
    }
}

/// The first value (minus one) covered by prefix code `prefix_code >= 4`.
pub open spec fn prefix_offset(prefix_code: u32) -> u32 {
    ((2 + (prefix_code & 1)) as u32) << prefix_extra_bits(prefix_code)
}

/// The value that prefix code `prefix_code` plus `extra_value` stands for.
pub open spec fn prefix_value(prefix_code: u32, extra_value: u32) -> int {
    if prefix_code < 4 {
        prefix_code + 1
    } else {
        prefix_offset(prefix_code) + extra_value + 1
    }
}

proof fn lemma_prefix_slots(pc: u32)
    requires
        4 <= pc < 63,
    ensures
        prefix_extra_bits(pc) <= 30,
        prefix_offset(pc) + (1u32 << prefix_extra_bits(pc)) == prefix_offset((pc + 1) as u32),
        prefix_offset(pc) + (1u32 << prefix_extra_bits(pc)) <= 0xC000_0000,
{
    let pm2 = (pc - 2) as u32;
    let pm1 = (pc - 1) as u32;
    let pp1 = (pc + 1) as u32;
    let e = prefix_extra_bits(pc);
    let e1 = prefix_extra_bits(pp1);
    assert(e == pm2 >> 1);
    assert(e1 == pm1 >> 1);
    let o = prefix_offset(pc);
    let o1 = prefix_offset(pp1);
    assert(o == ((2 + (pc & 1)) as u32) << e);
    assert(o1 == ((2 + (pp1 & 1)) as u32) << e1);
    assert(e <= 30 && o + (1u32 << e) == o1 && o + (1u32 << e) <= 0xC000_0000u32) by (bit_vector)
        requires
            4 <= pc < 63,
            pm2 == pc - 2,
            pm1 == pc - 1,
            pp1 == pc + 1,
            e == pm2 >> 1,
            e1 == pm1 >> 1,
            o == ((2 + (pc & 1)) as u32) << e,
            o1 == ((2 + (pp1 & 1)) as u32) << e1,
    ;
}

/// The shared prefix-code + extra-bits scheme VP8L uses for both the
/// length alphabet (24 slots, values 1..=4096) and the distance alphabet
/// (40 slots, values 1..=1_048_576): slots 0..4 cover values 1..4
/// directly; each slot after that doubles the range covered by the
/// previous pair of slots. Returns `(prefix_code, extra_bits, extra_value)`.
pub fn encode_prefix_value(value: u32) -> (res: (u32, u32, u32))
    requires
        1 <= value <= 0xC000_0000,
    ensures
        res.1 == prefix_extra_bits(res.0),
        res.1 <= 30,
        res.2 < (1u32 << res.1),
        prefix_value(res.0, res.2) == value,
        res.0 < 63,
        value <= 4096 ==> res.0 < 24,
        value <= 1_048_576 ==> res.0 < 40,
{
    if value <= 4 {
        assert(0u32 < (1u32 << 0u32)) by (bit_vector);
        return (value - 1, 0, 0);
    }
    let l = value - 1;
    let mut prefix_code = 4u32;
    assert(prefix_offset(4) == 4) by {
        assert(((2 + (4u32 & 1)) as u32) << (((4u32 - 2) as u32) >> 1) == 4u32) by (bit_vector);
    }
    loop
        invariant
            4 <= prefix_code < 63,
            l == value - 1,
            4 <= l < 0xC000_0000,
            prefix_offset(prefix_code) <= l,
        decreases 63 - prefix_code,
    {
        proof {
            lemma_prefix_slots(prefix_code);
        }
        let extra_bits = (prefix_code - 2) >> 1;
        assert(prefix_code & 1 <= 1) by (bit_vector);
        let offset = (2 + (prefix_code & 1)) << extra_bits;
        if l >= offset && l < offset + (1 << extra_bits) {
            proof {
                assert(l - offset < (1u32 << extra_bits));
                if value <= 4096 {
                    if prefix_code >= 24 {
                        lemma_offset_grows(prefix_code, 24);
                        assert(prefix_offset(24) == 4096u32) by {
                            assert(((2 + (24u32 & 1)) as u32) << (((24u32 - 2) as u32) >> 1) == 4096u32) by (bit_vector);
                        }
                    }
                }
                if value <= 1_048_576 {
                    if prefix_code >= 40 {
                        lemma_offset_grows(prefix_code, 40);
                        assert(prefix_offset(40) == 1048576u32) by {
                            assert(((2 + (40u32 & 1)) as u32) << (((40u32 - 2) as u32) >> 1) == 1048576u32) by (bit_vector);
                        }
                    }
                }
            }
            return (prefix_code, extra_bits, l - offset);
        }
        proof {
            if prefix_code == 62 {
                assert(prefix_offset(63) == 0xC000_0000u32) by {
                    assert(((2 + (63u32 & 1)) as u32) << (((63u32 - 2) as u32) >> 1) == 0xC000_0000u32) by (bit_vector);
                }
            }
        }
        prefix_code += 1;
    }
}

/// Offsets grow with the prefix code.
proof fn lemma_offset_grows(pc: u32, lo: u32)
    requires
        4 <= lo <= pc < 63,
    ensures
        prefix_offset(lo) <= prefix_offset(pc),
    decreases pc - lo,
{
    if lo < pc {
        lemma_offset_grows(pc, (lo + 1) as u32);
        lemma_prefix_slots(lo);
    }
}

/// The value that `prefix_code` plus `extra_value` stands for (the inverse
/// of `encode_prefix_value`). The prefix code's shift must stay within 32
/// bits and the value must fit a `u32`; an extra value wider than its bits
/// is simply added.
pub fn decode_prefix_value(prefix_code: u32, extra_value: u32) -> (value: u32)
    requires
        prefix_code < 66,
        prefix_value(prefix_code, extra_value) <= u32::MAX,
    ensures
        value == prefix_value(prefix_code, extra_value),
{
    if prefix_code < 4 {
        return prefix_code + 1;
    }
    let shifted = prefix_code - 2;
    let extra_bits = shifted >> 1;
    assert(extra_bits < 32) by (bit_vector)
        requires
            extra_bits == shifted >> 1,
            shifted < 64,
    ;
    assert(prefix_code & 1 <= 1) by (bit_vector);
    let offset = (2 + (prefix_code & 1)) << extra_bits;
    offset + extra_value + 1
}

/// `t` is a `(prefix_code, extra_bits, extra_value)` triple for `value`.
pub open spec fn prefix_encodes(t: (u32, u32, u32), value: u32) -> bool {
    &&& t.0 < 63
    &&& t.1 == prefix_extra_bits(t.0)
    &&& t.2 < (1u32 << t.1)
    &&& prefix_value(t.0, t.2) == value
}

/// The one `(prefix_code, extra_bits, extra_value)` triple for `value`.
pub open spec fn prefix_triple(value: u32) -> (u32, u32, u32) {
    choose|t: (u32, u32, u32)| prefix_encodes(t, value)
}

/// A value has one prefix-code encoding at most.
pub proof fn lemma_prefix_unique(t1: (u32, u32, u32), t2: (u32, u32, u32), value: u32)
    requires
        prefix_encodes(t1, value),
        prefix_encodes(t2, value),
    ensures
        t1 == t2,
        t1 == prefix_triple(value),
{
    assert(prefix_offset(4) == 4) by {
        assert(((2 + (4u32 & 1)) as u32) << (((4u32 - 2) as u32) >> 1) == 4u32) by (bit_vector);
    }
    assert forall|a: (u32, u32, u32), b: (u32, u32, u32)|
        prefix_encodes(a, value) && prefix_encodes(b, value) implies a == b by {
        if a.0 < 4 && b.0 < 4 {
            assert(a.1 == 0 && b.1 == 0);
            assert((1u32 << 0u32) == 1) by (bit_vector);
        } else if a.0 < 4 {
            lemma_offset_grows(b.0, 4);
        } else if b.0 < 4 {
            lemma_offset_grows(a.0, 4);
        } else if a.0 < b.0 {
            lemma_prefix_slots(a.0);
            lemma_offset_grows(b.0, (a.0 + 1) as u32);
        } else if b.0 < a.0 {
            lemma_prefix_slots(b.0);
            lemma_offset_grows(a.0, (b.0 + 1) as u32);
        }
    }
}


/// Codes 4 up to `pc` cover every value whose offset form lies below the
/// next code's offset.
proof fn lemma_prefix_covered(value: u32, pc: u32)
    requires
        4 <= pc < 63,
        5 <= value,
        value - 1 < prefix_offset((pc + 1) as u32),
    ensures
        exists|t: (u32, u32, u32)| prefix_encodes(t, value),
    decreases pc,
{
    lemma_prefix_slots(pc);
    let x = (value - 1) as u32;
    assert(prefix_offset(4) == 4) by {
        assert(((2 + (4u32 & 1)) as u32) << (((4u32 - 2) as u32) >> 1) == 4u32) by (bit_vector);
    }
    if pc > 4 && x < prefix_offset(pc) {
        lemma_prefix_covered(value, (pc - 1) as u32);
    } else {
        if pc > 4 {
            assert(x >= prefix_offset(pc));
        } else {
            assert(x >= prefix_offset(pc));
        }
        let e = prefix_extra_bits(pc);
        let t = (pc, e, (x - prefix_offset(pc)) as u32);
        assert(t.2 < (1u32 << e));
        assert(prefix_value(pc, t.2) == value);
        assert(prefix_encodes(t, value));
    }
}

/// Every value from 1 to `0xC000_0000` has its prefix-code encoding.
pub proof fn lemma_prefix_exists(value: u32)
    requires
        1 <= value <= 0xC000_0000,
    ensures
        prefix_encodes(prefix_triple(value), value),
{
    if value <= 4 {
        let t = ((value - 1) as u32, 0u32, 0u32);
        assert((1u32 << 0u32) == 1) by (bit_vector);
        assert(prefix_encodes(t, value));
    } else {
        assert(prefix_offset(63) == 0xC000_0000) by {
            assert(((2 + (63u32 & 1)) as u32) << (((63u32 - 2) as u32) >> 1) == 0xC000_0000u32)
                by (bit_vector);
        }
        lemma_prefix_covered(value, 62);
    }
}

/// A value no larger than the offset of prefix code `codes` is encoded
/// with a code below `codes`.
pub proof fn lemma_prefix_code_below(t: (u32, u32, u32), value: u32, codes: u32)
    requires
        prefix_encodes(t, value),
        4 <= codes < 63,
        value <= prefix_offset(codes),
    ensures
        t.0 < codes,
{
    if t.0 >= codes {
        lemma_offset_grows(t.0, codes);
    }
}

/// The length alphabet's 24 codes reach 4096, the distance alphabet's 40
/// codes 1_048_576.
pub proof fn lemma_alphabet_offsets()
    ensures
        prefix_offset(24) == 4096,
        prefix_offset(40) == 1_048_576,
{
    assert(((2 + (24u32 & 1)) as u32) << (((24u32 - 2) as u32) >> 1) == 4096u32) by (bit_vector);
    assert(((2 + (40u32 & 1)) as u32) << (((40u32 - 2) as u32) >> 1) == 1_048_576u32)
        by (bit_vector);
}

/// How many pixels a token stands for.
pub open spec fn token_len(t: Token) -> nat {
    match t {
        Token::Literal(_) => 1,
        Token::Match { length, .. } => length as nat,
    }
}

/// How many pixels a token stream stands for.
pub open spec fn tokens_len(tokens: Seq<Token>) -> nat
    decreases tokens.len(),
{
    if tokens.len() == 0 {
        0
    } else {
        tokens_len(tokens.drop_last()) + token_len(tokens.last())
    }
}

/// A token stream decodes to as many pixels as its tokens stand for.
pub proof fn lemma_decoded_len(tokens: Seq<Token>)
    ensures
        decode_tokens(tokens).len() == tokens_len(tokens),
    decreases tokens.len(),
{
    if tokens.len() > 0 {
        lemma_decoded_len(tokens.drop_last());
        match tokens.last() {
            Token::Literal(_) => {},
            Token::Match { length, distance } => {
                lemma_copy_match_len(decode_tokens(tokens.drop_last()), length as nat, distance as int);
            },
        }
    }
}

/// The pixel count of a stream, split after its first token.
pub proof fn lemma_tokens_len_front(t: Token, rest: Seq<Token>)
    ensures
        tokens_len(seq![t] + rest) == token_len(t) + tokens_len(rest),
    decreases rest.len(),
{
    let s = seq![t] + rest;
    if rest.len() == 0 {
        assert(s.drop_last() =~= Seq::<Token>::empty());
        assert(s.last() == t);
        assert(tokens_len(s) == tokens_len(s.drop_last()) + token_len(s.last()));
    } else {
        assert(s.drop_last() =~= seq![t] + rest.drop_last());
        assert(s.last() == rest.last());
        lemma_tokens_len_front(t, rest.drop_last());
        assert(tokens_len(s) == tokens_len(s.drop_last()) + token_len(s.last()));
        assert(tokens_len(rest) == tokens_len(rest.drop_last()) + token_len(rest.last()));
    }
}

/// With no earlier position holding `v`, there is no latest one.
proof fn lemma_latest_none(pixels: Seq<u32>, v: u32, q: int)
    requires
        q <= pixels.len(),
        forall|j: int| 0 <= j < q ==> pixels[j] != v,
    ensures
        latest_before(pixels, v, q) == -1,
    decreases q,
{
    if q > 0 {
        lemma_latest_none(pixels, v, q - 1);
    }
}

proof fn lemma_distinct_literals_from(pixels: Seq<u32>, i: int)
    requires
        0 <= i <= pixels.len(),
        forall|a: int, b: int| 0 <= a < b < pixels.len() ==> pixels[a] != pixels[b],
    ensures
        greedy_from(pixels, i) == Seq::new(
            (pixels.len() - i) as nat,
            |k: int| Token::Literal(pixels[i + k]),
        ),
    decreases pixels.len() - i,
{
    if i < pixels.len() {
        lemma_latest_none(pixels, pixels[i], i);
        lemma_distinct_literals_from(pixels, i + 1);
        assert(greedy_from(pixels, i) =~= Seq::new(
            (pixels.len() - i) as nat,
            |k: int| Token::Literal(pixels[i + k]),
        ));
    } else {
        assert(greedy_from(pixels, i) =~= Seq::new(
            (pixels.len() - i) as nat,
            |k: int| Token::Literal(pixels[i + k]),
        ));
    }
}

/// Pixels that are all different leave nothing to copy: the finder emits
/// one literal per pixel.
pub proof fn law_distinct_pixels_literals(pixels: Seq<u32>)
    requires
        forall|a: int, b: int| 0 <= a < b < pixels.len() ==> pixels[a] != pixels[b],
    ensures
        greedy_from(pixels, 0) == Seq::new(pixels.len(), |k: int| Token::Literal(pixels[k])),
{
    lemma_distinct_literals_from(pixels, 0);
    assert(Seq::new((pixels.len() - 0) as nat, |k: int| Token::Literal(pixels[0 + k])) =~= Seq::new(
        pixels.len(),
        |k: int| Token::Literal(pixels[k]),
    ));
}

/// Every token decodes to at least one pixel.
pub proof fn lemma_tokens_len(tokens: Seq<Token>)
    requires
        valid_tokens(tokens),
    ensures
        tokens.len() <= decode_tokens(tokens).len(),
    decreases tokens.len(),
{
    if tokens.len() > 0 {
        let d = tokens.drop_last();
        assert forall|k: int| 0 <= k < d.len() implies match #[trigger] d[k] {
            Token::Literal(_) => true,
            Token::Match { length, distance } => {
                &&& MIN_MATCH <= length <= MAX_MATCH
                &&& 1 <= distance <= MAX_DISTANCE_WINDOW
                &&& distance <= decode_tokens(d.take(k)).len()
            },
        } by {
            assert(d.take(k) =~= tokens.take(k));
            assert(d[k] == tokens[k]);
        }
        lemma_tokens_len(d);
        let last = tokens.last();
        assert(tokens[tokens.len() - 1] == last);
        match last {
            Token::Literal(_) => {},
            Token::Match { length, distance } => {
                lemma_copy_match_len(decode_tokens(d), length as nat, distance as int);
            },
        }
    }
}

} // verus!
