use vstd::prelude::*;

use crate::chars::{is_white_space, is_whitespace, skip_ws};
use vstd::utf8::{decode_utf8, valid_utf8};

verus! {

broadcast use vstd::string::axiom_spec_iter;

/// Appends `c` to `s` (`String::push`).
#[verifier::external_body]
pub(crate) fn push_char(s: &mut String, c: char)
    ensures
        final(s)@ == old(s)@.push(c),
{
    s.push(c);
}

/// `String::from_utf8`: the string `bytes` encode, if they are UTF-8.
#[verifier::external_body]
pub(crate) fn utf8_string(bytes: Vec<u8>) -> (r: Option<String>)
    ensures
        r is Some <==> valid_utf8(bytes@),
        r matches Some(s) ==> s@ == decode_utf8(bytes@),
{
    String::from_utf8(bytes).ok()
}

/// The characters of `s`, in order.
pub fn chars_of(s: &str) -> (v: Vec<char>)
    ensures
        v@ == s@,
{
    let mut v: Vec<char> = Vec::new();
    for c in it: s.chars()
        invariant
            v@ == it.seq().take(it.index() as int),
    {
        v.push(c);
    }
    v
}

/// A string holding the characters `cs`.
pub fn string_from(cs: &Vec<char>) -> (s: String)
    ensures
        s@ == cs@,
{
    let mut s = String::new();
    let mut i: usize = 0;
    while i < cs.len()
        invariant
            i <= cs.len(),
            s@ == cs@.take(i as int),
        decreases cs.len() - i,
    {
        push_char(&mut s, cs[i]);
        assert(cs@.take(i + 1) =~= cs@.take(i as int).push(cs@[i as int]));
        i += 1;
    }
    assert(cs@.take(cs.len() as int) =~= cs@);
    s
}


/// The decimal digit `d` (0..=9) as a character.
pub open spec fn digit_char(d: nat) -> char {
    if d == 0 {
        '0'
    } else if d == 1 {
        '1'
    } else if d == 2 {
        '2'
    } else if d == 3 {
        '3'
    } else if d == 4 {
        '4'
    } else if d == 5 {
        '5'
    } else if d == 6 {
        '6'
    } else if d == 7 {
        '7'
    } else if d == 8 {
        '8'
    } else {
        '9'
    }
}

/// `n` written in decimal, without leading zeros.
pub open spec fn decimal(n: nat) -> Seq<char>
    decreases n,
{
    if n < 10 {
        seq![digit_char(n)]
    } else {
        decimal(n / 10).push(digit_char(n % 10))
    }
}

fn digit(d: u64) -> (c: char)
    requires
        d < 10,
    ensures
        c == digit_char(d as nat),
{
    if d == 0 {
        '0'
    } else if d == 1 {
        '1'
    } else if d == 2 {
        '2'
    } else if d == 3 {
        '3'
    } else if d == 4 {
        '4'
    } else if d == 5 {
        '5'
    } else if d == 6 {
        '6'
    } else if d == 7 {
        '7'
    } else if d == 8 {
        '8'
    } else {
        '9'
    }
}

/// The decimal digits of `n`.
pub fn decimal_chars(n: u64) -> (v: Vec<char>)
    ensures
        v@ == decimal(n as nat),
    decreases n,
{
    if n < 10 {
        let mut v: Vec<char> = Vec::new();
        v.push(digit(n));
        assert(v@ =~= seq![digit_char(n as nat)]);
        v
    } else {
        let mut v = decimal_chars(n / 10);
        v.push(digit(n % 10));
        v
    }
}

/// Appends the characters of `s` to `v`.
pub fn append_str(v: &mut Vec<char>, s: &str)
    ensures
        final(v)@ == old(v)@ + s@,
{
    let cs = chars_of(s);
    let mut i: usize = 0;
    while i < cs.len()
        invariant
            i <= cs.len(),
            cs@ == s@,
            v@ == old(v)@ + cs@.take(i as int),
        decreases cs.len() - i,
    {
        v.push(cs[i]);
        assert(cs@.take(i + 1) =~= cs@.take(i as int).push(cs@[i as int]));
        i += 1;
    }
    assert(cs@.take(cs.len() as int) =~= cs@);
}

/// The end of the run of non-whitespace characters that starts at `p`.
pub open spec fn word_end(s: Seq<char>, p: int) -> int
    decreases s.len() - p,
{
    if 0 <= p < s.len() && !is_white_space(s[p]) {
        word_end(s, p + 1)
    } else {
        p
    }
}

/// The whitespace-separated words of `s` from `p` on, in order.
pub open spec fn words_from(s: Seq<char>, p: int) -> Seq<Seq<char>>
    decreases s.len() - p,
{
    let a = skip_ws(s, p);
    if p < 0 || a < p || a >= s.len() {
        Seq::empty()
    } else {
        let b = word_end(s, a);
        if a < b <= s.len() {
            seq![s.subrange(a, b)] + words_from(s, b)
        } else {
            Seq::empty()
        }
    }
}

/// `s` begins with whitespace.
pub open spec fn starts_with_space(s: Seq<char>) -> bool {
    s.len() > 0 && is_white_space(s[0])
}

/// `s` ends with whitespace.
pub open spec fn ends_with_space(s: Seq<char>) -> bool {
    s.len() > 0 && is_white_space(s.last())
}

/// Skipping whitespace from `p` leads no further than `skip_ws`, and the
/// words from there are the words from `p`.
proof fn lemma_skip_words(s: Seq<char>, p: int)
    requires
        0 <= p <= s.len(),
    ensures
        p <= skip_ws(s, p) <= s.len(),
        words_from(s, skip_ws(s, p)) == words_from(s, p),
        skip_ws(s, skip_ws(s, p)) == skip_ws(s, p),
    decreases s.len() - p,
{
    if p < s.len() && is_white_space(s[p]) {
        lemma_skip_words(s, p + 1);
    }
}

/// A word run ends no further than the end, and past its start where
/// that holds no whitespace.
proof fn lemma_word_end(s: Seq<char>, p: int)
    requires
        0 <= p <= s.len(),
    ensures
        p <= word_end(s, p) <= s.len(),
        p < s.len() && !is_white_space(s[p]) ==> p < word_end(s, p),
        forall|k: int| p <= k < word_end(s, p) ==> !is_white_space(#[trigger] s[k]),
        word_end(s, p) == s.len() || is_white_space(s[word_end(s, p)]),
    decreases s.len() - p,
{
    if p < s.len() && !is_white_space(s[p]) {
        lemma_word_end(s, p + 1);
    }
}

/// The words of a text node for inline layout, each with whether a space
/// comes before it, given whether a space is pending from the text before
/// (`pending_space`); and whether a space is pending after it. The first
/// word gets a space if one was pending or the text starts with
/// whitespace, every later word gets one; after the last word a space is
/// pending if the text ends with whitespace, and a text with no word
/// leaves a space pending if one was or it has whitespace.
pub fn text_words(text: &str, pending_space: bool) -> (r: (Vec<(String, bool)>, bool))
    ensures
        ({
            let ws = words_from(text@, 0);
            let lead = pending_space || starts_with_space(text@);
            &&& r.0@.len() == ws.len()
            &&& forall|k: int|
                0 <= k < ws.len() ==> (#[trigger] r.0@[k]).0@ == ws[k] && r.0@[k].1 == (k == 0
                    ==> lead)
            &&& r.1 == (if ws.len() == 0 {
                lead
            } else {
                ends_with_space(text@)
            })
        }),
{
    let s = chars_of(text);
    let ghost sv = s@;
    let n = s.len();
    let mut pending = pending_space;
    if n > 0 && is_whitespace(s[0]) {
        pending = true;
    }
    let ghost lead = pending;
    let mut words: Vec<(String, bool)> = Vec::new();
    let mut i: usize = 0;
    proof {
        assert(words_from(sv, 0) =~= Seq::<Seq<char>>::empty() + words_from(sv, 0));
    }
    loop
        invariant
            n == s.len(),
            sv == s@,
            sv == text@,
            lead == (pending_space || starts_with_space(text@)),
            i <= n,
            words@.len() + words_from(sv, i as int).len() == words_from(sv, 0).len(),
            forall|k: int|
                0 <= k < words@.len() ==> (#[trigger] words@[k]).0@ == words_from(sv, 0)[k]
                    && words@[k].1 == (k == 0 ==> lead),
            forall|k: int|
                0 <= k < words_from(sv, i as int).len() ==> #[trigger] words_from(sv, i as int)[k]
                    == words_from(sv, 0)[words@.len() + k],
            words@.len() == 0 ==> pending == lead,
            words@.len() > 0 ==> pending,
        ensures
            n == s.len(),
            sv == s@,
            sv == text@,
            lead == (pending_space || starts_with_space(text@)),
            words@.len() == words_from(sv, 0).len(),
            forall|k: int|
                0 <= k < words@.len() ==> (#[trigger] words@[k]).0@ == words_from(sv, 0)[k]
                    && words@[k].1 == (k == 0 ==> lead),
            words@.len() == 0 ==> pending == lead,
        decreases n - i,
    {
        proof {
            lemma_skip_words(sv, i as int);
        }
        let ghost i0 = i as int;
        while i < n && is_whitespace(s[i])
            invariant
                n == s.len(),
                sv == s@,
                i0 <= i <= n,
                skip_ws(sv, i as int) == skip_ws(sv, i0),
            decreases n - i,
        {
            i += 1;
        }
        proof {
            assert(i as int == skip_ws(sv, i0));
        }
        if i >= n {
            proof {
                assert(words_from(sv, i0).len() == 0);
            }
            break;
        }
        let start = i;
        proof {
            lemma_word_end(sv, start as int);
        }
        let mut word = String::new();
        while i < n && !is_whitespace(s[i])
            invariant
                n == s.len(),
                sv == s@,
                start <= i <= n,
                word@ == sv.subrange(start as int, i as int),
                word_end(sv, i as int) == word_end(sv, start as int),
            decreases n - i,
        {
            push_char(&mut word, s[i]);
            i += 1;
            assert(word@ =~= sv.subrange(start as int, i as int));
        }
        proof {
            assert(i as int == word_end(sv, start as int));
            assert(words_from(sv, i0) == words_from(sv, start as int));
            assert(words_from(sv, start as int) == seq![sv.subrange(start as int, i as int)]
                + words_from(sv, i as int));
            assert(words_from(sv, i0)[0] == word@);
            assert forall|k: int| 0 <= k < words_from(sv, i as int).len() implies #[trigger] words_from(sv, i as int)[k]
                == words_from(sv, 0)[words@.len() + 1 + k] by {
                assert(words_from(sv, i0)[k + 1] == words_from(sv, i as int)[k]);
            }
        }
        let ghost count = words@.len();
        words.push((word, pending));
        pending = true;
        proof {
            assert(words@[count as int].0@ == words_from(sv, 0)[count as int]);
        }
    }
    if words.len() > 0 {
        pending = n > 0 && is_whitespace(s[n - 1]);
    }
    (words, pending)
}

} // verus!
