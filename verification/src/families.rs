//! Which requested font families to warn about: each named family that no
//! loaded font provides, once per name told apart without regard to case.

use vstd::prelude::*;

use crate::chars::{ascii_lowered, lowered_chars};

verus! {

/// Lexicographic order of character sequences, by code point.
pub open spec fn chars_less(a: Seq<char>, b: Seq<char>) -> bool
    decreases a.len(),
{
    if a.len() == 0 {
        b.len() > 0
    } else if b.len() == 0 {
        false
    } else if a[0] != b[0] {
        (a[0] as u32) < (b[0] as u32)
    } else {
        chars_less(a.drop_first(), b.drop_first())
    }
}

pub proof fn lemma_chars_less_irreflexive(a: Seq<char>)
    ensures
        !chars_less(a, a),
    decreases a.len(),
{
    if a.len() > 0 {
        lemma_chars_less_irreflexive(a.drop_first());
    }
}

pub proof fn lemma_chars_less_total(a: Seq<char>, b: Seq<char>)
    ensures
        a == b || chars_less(a, b) || chars_less(b, a),
    decreases a.len(),
{
    if a.len() > 0 && b.len() > 0 && a[0] == b[0] {
        lemma_chars_less_total(a.drop_first(), b.drop_first());
        if a.drop_first() == b.drop_first() {
            assert(a =~= seq![a[0]] + a.drop_first());
            assert(b =~= seq![b[0]] + b.drop_first());
        }
    } else if a.len() > 0 && b.len() > 0 {
        vstd::utf8::char_u32_cast(a[0], a[0] as u32);
        vstd::utf8::char_u32_cast(b[0], b[0] as u32);
        assert((a[0] as u32) != (b[0] as u32));
    } else if a.len() == 0 && b.len() == 0 {
        assert(a =~= b);
    }
}

pub proof fn lemma_chars_less_transitive(a: Seq<char>, b: Seq<char>, c: Seq<char>)
    requires
        chars_less(a, b),
        chars_less(b, c),
    ensures
        chars_less(a, c),
    decreases a.len(),
{
    if a.len() > 0 && b.len() > 0 && c.len() > 0 && a[0] == b[0] && b[0] == c[0] {
        lemma_chars_less_transitive(a.drop_first(), b.drop_first(), c.drop_first());
    }
}

/// Whether `a` comes before `b`.
fn chars_before(a: &Vec<char>, b: &Vec<char>) -> (r: bool)
    ensures
        r == chars_less(a@, b@),
{
    let mut i: usize = 0;
    assert(a@.skip(0) =~= a@ && b@.skip(0) =~= b@);
    while i < a.len() && i < b.len() && a[i] == b[i]
        invariant
            i <= a.len(),
            i <= b.len(),
            chars_less(a@, b@) == chars_less(a@.skip(i as int), b@.skip(i as int)),
        decreases a.len() - i,
    {
        assert(a@.skip(i as int).drop_first() =~= a@.skip(i + 1));
        assert(b@.skip(i as int).drop_first() =~= b@.skip(i + 1));
        i += 1;
    }
    if i < a.len() && i < b.len() {
        assert(a@.skip(i as int)[0] == a@[i as int]);
        assert(b@.skip(i as int)[0] == b@[i as int]);
        (a[i] as u32) < (b[i] as u32)
    } else {
        i < b.len()
    }
}

fn chars_same(a: &Vec<char>, b: &Vec<char>) -> (r: bool)
    ensures
        r == (a@ == b@),
{
    if a.len() != b.len() {
        return false;
    }
    let mut i: usize = 0;
    while i < a.len()
        invariant
            i <= a.len() == b.len(),
            forall|j: int| 0 <= j < i ==> a@[j] == b@[j],
        decreases a.len() - i,
    {
        if a[i] != b[i] {
            return false;
        }
        i += 1;
    }
    assert(a@ =~= b@);
    true
}

/// Request `j` names a family no loaded font provides.
pub open spec fn missing_at(requested: Seq<(String, bool)>, j: int) -> bool {
    0 <= j < requested.len() && !requested[j].1
}

/// Request `j` is the first missing one whose name, lowercased, is its
/// name lowercased.
pub open spec fn first_missing(requested: Seq<(String, bool)>, j: int) -> bool {
    &&& missing_at(requested, j)
    &&& forall|k: int|
        0 <= k < j && #[trigger] missing_at(requested, k) ==> ascii_lowered(requested[k].0@)
            != ascii_lowered(requested[j].0@)
}

/// `name` is the name of a first missing request.
pub open spec fn first_missing_name(requested: Seq<(String, bool)>, name: String) -> bool {
    exists|j: int| first_missing(requested, j) && requested[j].0 == name
}

/// What the search leaves: sorted distinct keys, each of a first missing
/// request, and a key for every missing request.
proof fn lemma_missing_result(
    requested: Seq<(String, bool)>,
    out: Seq<String>,
    keys: Seq<Vec<char>>,
    src: Seq<int>,
)
    requires
        keys.len() == out.len(),
        src.len() == out.len(),
        forall|a: int|
            0 <= a < out.len() ==> first_missing(requested, #[trigger] src[a]) && out[a]
                == requested[src[a]].0,
        forall|a: int| 0 <= a < keys.len() ==> (#[trigger] keys[a])@ == ascii_lowered(out[a]@),
        forall|a: int, b: int|
            0 <= a < b < keys.len() ==> chars_less((#[trigger] keys[a])@, (#[trigger] keys[b])@),
        forall|k: int|
            0 <= k < requested.len() && #[trigger] missing_at(requested, k) ==> exists|a: int|
                0 <= a < keys.len() && (#[trigger] keys[a])@ == ascii_lowered(requested[k].0@),
    ensures
        forall|a: int, b: int|
            0 <= a < b < out.len() ==> chars_less(
                ascii_lowered(#[trigger] out[a]@),
                ascii_lowered(#[trigger] out[b]@),
            ),
        forall|a: int| 0 <= a < out.len() ==> first_missing_name(requested, #[trigger] out[a]),
        forall|j: int|
            #[trigger] first_missing(requested, j) ==> exists|a: int|
                0 <= a < out.len() && out[a] == requested[j].0,
{
    assert forall|a: int| 0 <= a < out.len() implies first_missing_name(requested, #[trigger] out[a]) by {
        assert(first_missing(requested, src[a]));
        assert(out[a] == requested[src[a]].0);
    }
    assert forall|a: int, b: int|
        0 <= a < b < out.len() implies chars_less(
        ascii_lowered(#[trigger] out[a]@),
        ascii_lowered(#[trigger] out[b]@),
    ) by {
        assert(keys[a]@ == ascii_lowered(out[a]@));
        assert(keys[b]@ == ascii_lowered(out[b]@));
    }
    assert forall|k: int| #[trigger] first_missing(requested, k) implies exists|a: int|
        0 <= a < out.len() && out[a] == requested[k].0 by {
        let a = choose|a: int|
            0 <= a < keys.len() && (#[trigger] keys[a])@ == ascii_lowered(requested[k].0@);
        assert(keys[a]@ == ascii_lowered(out[a]@));
        let k2 = src[a];
        assert(first_missing(requested, k2) && out[a] == requested[k2].0);
        if k2 < k {
            assert(missing_at(requested, k2));
        } else if k < k2 {
            assert(missing_at(requested, k));
        }
    }
}

/// The names of the requested font families that no loaded font provides
/// (`requested` pairs a name with whether a loaded font provides it): one
/// per name told apart without regard to case, spelled as first requested,
/// in the order of the lowercased names.
#[verifier::rlimit(60)]
pub fn missing_families(requested: &Vec<(String, bool)>) -> (r: Vec<String>)
    ensures
        forall|a: int, b: int|
            0 <= a < b < r.len() ==> chars_less(
                ascii_lowered(#[trigger] r[a]@),
                ascii_lowered(#[trigger] r[b]@),
            ),
        forall|a: int| 0 <= a < r.len() ==> first_missing_name(requested@, #[trigger] r@[a]),
        forall|j: int|
            #[trigger] first_missing(requested@, j) ==> exists|a: int|
                0 <= a < r.len() && r@[a] == requested@[j].0,
{
    let mut out: Vec<String> = Vec::new();
    let mut keys: Vec<Vec<char>> = Vec::new();
    let mut j: usize = 0;
    let ghost mut src: Seq<int> = Seq::empty();
    while j < requested.len()
        invariant
            j <= requested.len(),
            keys.len() == out.len(),
            src.len() == out.len(),
            forall|a: int|
                0 <= a < out.len() ==> first_missing(requested@, #[trigger] src[a]) && out@[a]
                    == requested@[src[a]].0,
            forall|a: int| 0 <= a < keys.len() ==> (#[trigger] keys@[a])@ == ascii_lowered(out@[a]@),
            forall|a: int, b: int|
                0 <= a < b < keys.len() ==> chars_less((#[trigger] keys@[a])@, (#[trigger] keys@[b])@),
            forall|k: int|
                0 <= k < j && #[trigger] missing_at(requested@, k) ==> exists|a: int|
                    0 <= a < keys.len() && (#[trigger] keys@[a])@ == ascii_lowered(
                        requested@[k].0@,
                    ),
        decreases requested.len() - j,
    {
        let (name, provided) = &requested[j];
        if !*provided {
            let key = lowered_chars(name.as_str());
            let mut pos: usize = 0;
            while pos < keys.len() && chars_before(&keys[pos], &key)
                invariant
                    pos <= keys.len(),
                    forall|a: int| 0 <= a < pos ==> chars_less((#[trigger] keys@[a])@, key@),
                decreases keys.len() - pos,
            {
                pos += 1;
            }
            let found = pos < keys.len() && chars_same(&keys[pos], &key);
            if !found {
                proof {
                    if pos < keys.len() {
                        lemma_chars_less_total(keys@[pos as int]@, key@);
                    }
                    assert forall|k: int|
                        0 <= k < j && #[trigger] missing_at(requested@, k) implies ascii_lowered(
                        requested@[k].0@,
                    ) != ascii_lowered(requested@[j as int].0@) by {
                        let a = choose|a: int|
                            0 <= a < keys.len() && (#[trigger] keys@[a])@ == ascii_lowered(
                                requested@[k].0@,
                            );
                        if a < pos {
                            lemma_chars_less_irreflexive(key@);
                        } else {
                            if a > pos {
                                lemma_chars_less_transitive(key@, keys@[pos as int]@, keys@[a]@);
                            }
                            lemma_chars_less_irreflexive(key@);
                        }
                    }
                    assert(first_missing(requested@, j as int));
                }
                let ghost old_keys = keys@;
                let ghost old_out = out@;
                out.insert(pos, name.clone());
                keys.insert(pos, key);
                proof {
                    assert forall|a: int, b: int|
                        0 <= a < b < keys.len() implies chars_less(
                        (#[trigger] keys@[a])@,
                        (#[trigger] keys@[b])@,
                    ) by {
                        if b == pos as int {
                            assert(keys@[a] == old_keys[a]);
                        } else if a == pos as int {
                            assert(keys@[b] == old_keys[b - 1]);
                            if b - 1 > pos {
                                lemma_chars_less_transitive(key@, old_keys[pos as int]@, old_keys[b - 1]@);
                            }
                        } else {
                            let oa = if a < pos { a } else { a - 1 };
                            let ob = if b < pos { b } else { b - 1 };
                            assert(keys@[a] == old_keys[oa]);
                            assert(keys@[b] == old_keys[ob]);
                        }
                    }
                    assert forall|a: int| 0 <= a < keys.len() implies (#[trigger] keys@[a])@
                        == ascii_lowered(out@[a]@) by {
                        if a < pos {
                            assert(keys@[a] == old_keys[a] && out@[a] == old_out[a]);
                        } else if a > pos {
                            assert(keys@[a] == old_keys[a - 1] && out@[a] == old_out[a - 1]);
                        }
                    }
                    let ghost old_src = src;
                    src = src.insert(pos as int, j as int);
                    assert forall|a: int| 0 <= a < out.len() implies first_missing(
                        requested@,
                        #[trigger] src[a],
                    ) && out@[a] == requested@[src[a]].0 by {
                        if a < pos {
                            assert(out@[a] == old_out[a] && src[a] == old_src[a]);
                        } else if a > pos {
                            assert(out@[a] == old_out[a - 1] && src[a] == old_src[a - 1]);
                        } else {
                            assert(first_missing(requested@, j as int));
                        }
                    }
                    assert forall|k: int|
                        0 <= k < j + 1 && #[trigger] missing_at(requested@, k) implies exists|a: int|
                        0 <= a < keys.len() && (#[trigger] keys@[a])@ == ascii_lowered(
                            requested@[k].0@,
                        ) by {
                        if k == j {
                            assert(keys@[pos as int]@ == ascii_lowered(requested@[k].0@));
                        } else {
                            let a = choose|a: int|
                                0 <= a < old_keys.len() && (#[trigger] old_keys[a])@
                                    == ascii_lowered(requested@[k].0@);
                            if a < pos {
                                assert(keys@[a] == old_keys[a]);
                            } else {
                                assert(keys@[a + 1] == old_keys[a]);
                            }
                        }
                    }
                }
            } else {
                proof {
                    assert forall|k: int|
                        0 <= k < j + 1 && #[trigger] missing_at(requested@, k) implies exists|a: int|
                        0 <= a < keys.len() && (#[trigger] keys@[a])@ == ascii_lowered(
                            requested@[k].0@,
                        ) by {
                        if k == j {
                            assert(keys@[pos as int]@ == ascii_lowered(requested@[k].0@));
                        }
                    }
                }
            }
        }
        j += 1;
    }
    proof {
        lemma_missing_result(requested@, out@, keys@, src);
    }
    out
}

} // verus!
