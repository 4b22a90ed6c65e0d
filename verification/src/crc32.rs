use vstd::prelude::*;

verus! {

/// The reflected CRC-32 (IEEE 802.3) polynomial.
pub const POLY: u32 = 0xEDB88320;

/// One bit step of the reflected CRC-32 shift register.
pub open spec fn crc_bit_step(c: u32) -> u32 {
    if c & 1 != 0 {
        POLY ^ (c >> 1)
    } else {
        c >> 1
    }
}

/// `n` bit steps of the shift register.
pub open spec fn crc_bit_steps(c: u32, n: nat) -> u32
    decreases n,
{
    if n == 0 {
        c
    } else {
        crc_bit_step(crc_bit_steps(c, (n - 1) as nat))
    }
}

/// Folding one byte into a pre-final-XOR CRC-32 state, bit by bit.
pub open spec fn crc_byte_step(crc: u32, byte: u8) -> u32 {
    crc_bit_steps(crc ^ (byte as u32), 8)
}

/// The pre-final-XOR CRC state after folding `data` into `crc`.
pub open spec fn crc32_fold(crc: u32, data: Seq<u8>) -> u32
    decreases data.len(),
{
    if data.len() == 0 {
        crc
    } else {
        crc_byte_step(crc32_fold(crc, data.drop_last()), data.last())
    }
}

/// The table entry for `n`: eight bit steps from `n`.
pub open spec fn crc_table_entry(n: u32) -> u32 {
    crc_bit_steps(n, 8)
}

/// The table-driven step agrees with the bitwise definition.
proof fn lemma_table_step(crc: u32, byte: u8)
    ensures
        crc_table_entry((crc ^ (byte as u32)) & 0xFF) ^ (crc >> 8) == crc_byte_step(crc, byte),
{
    let x = crc ^ (byte as u32);
    let y = x & 0xFF;
    reveal_with_fuel(crc_bit_steps, 9);
    let p = POLY;
    assert(p == 0xEDB88320u32);
    let s1 = crc_bit_step(x);
    let s2 = crc_bit_step(s1);
    let s3 = crc_bit_step(s2);
    let s4 = crc_bit_step(s3);
    let s5 = crc_bit_step(s4);
    let s6 = crc_bit_step(s5);
    let s7 = crc_bit_step(s6);
    let s8 = crc_bit_step(s7);
    let t1 = crc_bit_step(y);
    let t2 = crc_bit_step(t1);
    let t3 = crc_bit_step(t2);
    let t4 = crc_bit_step(t3);
    let t5 = crc_bit_step(t4);
    let t6 = crc_bit_step(t5);
    let t7 = crc_bit_step(t6);
    let t8 = crc_bit_step(t7);
    assert(crc_bit_steps(x, 8) == s8);
    assert(crc_bit_steps(y, 8) == t8);
    assert(t8 ^ (crc >> 8) == s8) by (bit_vector)
        requires
            x == crc ^ (byte as u32),
            y == x & 0xFF,
            s1 == (if x & 1 != 0 { 0xEDB88320u32 ^ (x >> 1) } else { x >> 1 }),
            s2 == (if s1 & 1 != 0 { 0xEDB88320u32 ^ (s1 >> 1) } else { s1 >> 1 }),
            s3 == (if s2 & 1 != 0 { 0xEDB88320u32 ^ (s2 >> 1) } else { s2 >> 1 }),
            s4 == (if s3 & 1 != 0 { 0xEDB88320u32 ^ (s3 >> 1) } else { s3 >> 1 }),
            s5 == (if s4 & 1 != 0 { 0xEDB88320u32 ^ (s4 >> 1) } else { s4 >> 1 }),
            s6 == (if s5 & 1 != 0 { 0xEDB88320u32 ^ (s5 >> 1) } else { s5 >> 1 }),
            s7 == (if s6 & 1 != 0 { 0xEDB88320u32 ^ (s6 >> 1) } else { s6 >> 1 }),
            s8 == (if s7 & 1 != 0 { 0xEDB88320u32 ^ (s7 >> 1) } else { s7 >> 1 }),
            t1 == (if y & 1 != 0 { 0xEDB88320u32 ^ (y >> 1) } else { y >> 1 }),
            t2 == (if t1 & 1 != 0 { 0xEDB88320u32 ^ (t1 >> 1) } else { t1 >> 1 }),
            t3 == (if t2 & 1 != 0 { 0xEDB88320u32 ^ (t2 >> 1) } else { t2 >> 1 }),
            t4 == (if t3 & 1 != 0 { 0xEDB88320u32 ^ (t3 >> 1) } else { t3 >> 1 }),
            t5 == (if t4 & 1 != 0 { 0xEDB88320u32 ^ (t4 >> 1) } else { t4 >> 1 }),
            t6 == (if t5 & 1 != 0 { 0xEDB88320u32 ^ (t5 >> 1) } else { t5 >> 1 }),
            t7 == (if t6 & 1 != 0 { 0xEDB88320u32 ^ (t6 >> 1) } else { t6 >> 1 }),
            t8 == (if t7 & 1 != 0 { 0xEDB88320u32 ^ (t7 >> 1) } else { t7 >> 1 }),
    ;
}

/// Builds the 256-entry byte-at-a-time lookup table.
pub(crate) fn make_table() -> (table: Vec<u32>)
    ensures
        table.len() == 256,
        forall|n: int| 0 <= n < 256 ==> #[trigger] table[n] == crc_table_entry(n as u32),
{
    let mut table: Vec<u32> = Vec::new();
    let mut n: u32 = 0;
    while n < 256
        invariant
            n <= 256,
            table.len() == n,
            forall|m: int| 0 <= m < n ==> #[trigger] table[m] == crc_table_entry(m as u32),
        decreases 256 - n,
    {
        let mut c: u32 = n;
        let mut k: u32 = 0;
        while k < 8
            invariant
                k <= 8,
                c == crc_bit_steps(n, k as nat),
            decreases 8 - k,
        {
            c = if c & 1 != 0 {
                POLY ^ (c >> 1)
            } else {
                c >> 1
            };
            k += 1;
        }
        table.push(c);
        n += 1;
    }
    table
}

/// Folds `data` into a running, pre-final-XOR CRC state (start at
/// `0xFFFFFFFF`), so a checksum can be built up over pieces of a buffer
/// that's streamed out rather than held in memory as a whole. Apply the
/// final `^ 0xFFFFFFFF` only once, after the last update.
pub fn crc32_update(crc: &mut u32, data: &[u8])
    ensures
        *final(crc) == crc32_fold(*old(crc), data@),
{
    let table = make_table();
    crc32_update_range(&table, crc, data, 0, data.len());
    assert(data@.subrange(0, data@.len() as int) == data@);
}

/// Folds `data[start..end]` into `crc`, using a table built by `make_table`.
pub(crate) fn crc32_update_range(table: &Vec<u32>, crc: &mut u32, data: &[u8], start: usize, end: usize)
    requires
        table.len() == 256,
        forall|n: int| 0 <= n < 256 ==> #[trigger] table[n] == crc_table_entry(n as u32),
        start <= end <= data.len(),
    ensures
        *final(crc) == crc32_fold(*old(crc), data@.subrange(start as int, end as int)),
{
    let ghost c0 = *crc;
    let mut i: usize = start;
    while i < end
        invariant
            start <= i <= end <= data.len(),
            table.len() == 256,
            forall|n: int| 0 <= n < 256 ==> #[trigger] table[n] == crc_table_entry(n as u32),
            *crc == crc32_fold(c0, data@.subrange(start as int, i as int)),
        decreases end - i,
    {
        let byte = data[i];
        assert(data@.subrange(start as int, i + 1).drop_last() == data@.subrange(start as int, i as int));
        let x = *crc ^ byte as u32;
        let idx = (x & 0xFF) as usize;
        assert(x & 0xFF < 256) by (bit_vector);
        proof {
            lemma_table_step(*crc, byte);
        }
        *crc = table[idx] ^ (*crc >> 8);
        i += 1;
    }
}

/// Folding two pieces one after the other is folding their concatenation.
pub proof fn lemma_crc32_fold_concat(crc: u32, x: Seq<u8>, y: Seq<u8>)
    ensures
        crc32_fold(crc32_fold(crc, x), y) == crc32_fold(crc, x + y),
    decreases y.len(),
{
    if y.len() == 0 {
        assert(x + y == x);
    } else {
        lemma_crc32_fold_concat(crc, x, y.drop_last());
        assert((x + y).drop_last() == x + y.drop_last());
    }
}

} // verus!
