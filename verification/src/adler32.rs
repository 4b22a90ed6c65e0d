use vstd::prelude::*;

verus! {

/// The adler32 modulus: the largest prime below 2^16.
pub const MOD_ADLER: u32 = 65521;

/// The running `(a, b)` state after folding `data` into the state `(a, b)`,
/// one byte at a time.
pub open spec fn adler32_fold(a: int, b: int, data: Seq<u8>) -> (int, int)
    decreases data.len(),
{
    if data.len() == 0 {
        (a, b)
    } else {
        let (a1, b1) = adler32_fold(a, b, data.drop_last());
        let a2 = (a1 + data.last()) % (MOD_ADLER as int);
        (a2, (b1 + a2) % (MOD_ADLER as int))
    }
}

/// The inputs on which folding does not overflow a `u32`: only the first
/// byte can see a state outside `0..MOD_ADLER`.
pub open spec fn adler32_update_fits(a: u32, b: u32, data: Seq<u8>) -> bool {
    data.len() > 0 ==> {
        &&& a + data[0] <= u32::MAX
        &&& b + (a + data[0]) % (MOD_ADLER as int) <= u32::MAX
    }
}

/// Folds `data` into a running `(a, b)` state, so a checksum can be built up
/// incrementally over pieces of a buffer that's never assembled in one
/// place -- `a = 1, b = 0` is the correct starting state (matching the
/// standard adler32 checksum of an empty input).
pub fn adler32_update(a: &mut u32, b: &mut u32, data: &[u8])
    requires
        adler32_update_fits(*old(a), *old(b), data@),
    ensures
        (*final(a) as int, *final(b) as int) == adler32_fold(*old(a) as int, *old(b) as int, data@),
{
    let ghost a0 = *a as int;
    let ghost b0 = *b as int;
    let mut i: usize = 0;
    while i < data.len()
        invariant
            0 <= i <= data.len(),
            i > 0 ==> *a < MOD_ADLER && *b < MOD_ADLER,
            i == 0 ==> *a == a0 && *b == b0,
            adler32_update_fits(a0 as u32, b0 as u32, data@),
            0 <= a0 <= u32::MAX,
            0 <= b0 <= u32::MAX,
            (*a as int, *b as int) == adler32_fold(a0, b0, data@.take(i as int)),
        decreases data.len() - i,
    {
        let byte = data[i];
        assert(data@.take(i + 1).drop_last() == data@.take(i as int));
        *a = (*a + byte as u32) % MOD_ADLER;
        *b = (*b + *a) % MOD_ADLER;
        i += 1;
    }
    assert(data@.take(data.len() as int) == data@);
}

/// Folding two pieces one after the other is folding their concatenation.
pub proof fn lemma_adler32_fold_concat(a: int, b: int, x: Seq<u8>, y: Seq<u8>)
    ensures
        ({
            let (a1, b1) = adler32_fold(a, b, x);
            adler32_fold(a1, b1, y)
        }) == adler32_fold(a, b, x + y),
    decreases y.len(),
{
    if y.len() == 0 {
        assert(x + y == x);
    } else {
        lemma_adler32_fold_concat(a, b, x, y.drop_last());
        assert((x + y).drop_last() == x + y.drop_last());
    }
}

/// Starting from a state inside `0..MOD_ADLER`, folding stays inside it.
pub proof fn lemma_adler32_fold_bounded(a: int, b: int, data: Seq<u8>)
    requires
        0 <= a < MOD_ADLER,
        0 <= b < MOD_ADLER,
    ensures
        0 <= adler32_fold(a, b, data).0 < MOD_ADLER,
        0 <= adler32_fold(a, b, data).1 < MOD_ADLER,
    decreases data.len(),
{
    if data.len() > 0 {
        lemma_adler32_fold_bounded(a, b, data.drop_last());
    }
}

/// Folds `data[start..end]` into a state that is already inside
/// `0..MOD_ADLER`.
pub(crate) fn adler32_update_range(a: &mut u32, b: &mut u32, data: &[u8], start: usize, end: usize)
    requires
        *old(a) < MOD_ADLER,
        *old(b) < MOD_ADLER,
        start <= end <= data.len(),
    ensures
        *final(a) < MOD_ADLER,
        *final(b) < MOD_ADLER,
        (*final(a) as int, *final(b) as int) == adler32_fold(
            *old(a) as int,
            *old(b) as int,
            data@.subrange(start as int, end as int),
        ),
{
    let ghost a0 = *a as int;
    let ghost b0 = *b as int;
    let mut i: usize = start;
    while i < end
        invariant
            start <= i <= end <= data.len(),
            *a < MOD_ADLER,
            *b < MOD_ADLER,
            0 <= a0 < MOD_ADLER,
            0 <= b0 < MOD_ADLER,
            (*a as int, *b as int) == adler32_fold(a0, b0, data@.subrange(start as int, i as int)),
        decreases end - i,
    {
        let byte = data[i];
        assert(data@.subrange(start as int, i + 1).drop_last() == data@.subrange(
            start as int,
            i as int,
        ));
        *a = (*a + byte as u32) % MOD_ADLER;
        *b = (*b + *a) % MOD_ADLER;
        i += 1;
    }
}

} // verus!
