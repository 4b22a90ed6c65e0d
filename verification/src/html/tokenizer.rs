use vstd::prelude::*;

use crate::chars::{
    ascii_lower, ascii_lowered, is_alnum, is_alpha, is_ascii_alnum, is_ascii_alpha, is_white_space,
    is_whitespace, skip_ws, to_lower,
};
use crate::text::{chars_of, string_from};

verus! {

/// One token of HTML.
#[derive(Debug, Clone, PartialEq)]
pub enum Token {
    StartTag { name: String, attrs: Vec<(String, String)>, self_closing: bool },
    EndTag { name: String },
    Text(String),
}

/// Splits HTML text into tokens, one at a time.
pub struct Tokenizer {
    input: Vec<char>,
    pos: usize,
}

/// `s` begins with `prefix`.
pub open spec fn starts_with(s: Seq<char>, prefix: Seq<char>) -> bool {
    prefix.len() <= s.len() && s.take(prefix.len() as int) == prefix
}

/// Whether `c` is a digit in base `radix` (10 or 16).
pub open spec fn is_radix_digit(c: char, radix: u32) -> bool {
    ('0' <= c && c <= '9') || (radix == 16 && (('a' <= c && c <= 'f') || ('A' <= c && c <= 'F')))
}

/// The value of digit `c`.
pub open spec fn digit_value(c: char) -> nat {
    if '0' <= c && c <= '9' {
        (c as u32 - '0' as u32) as nat
    } else if 'a' <= c && c <= 'f' {
        (c as u32 - 'a' as u32 + 10) as nat
    } else {
        (c as u32 - 'A' as u32 + 10) as nat
    }
}

/// The number the digits `s` spell in base `radix`.
pub open spec fn digits_value(s: Seq<char>, radix: u32) -> nat
    decreases s.len(),
{
    if s.len() == 0 {
        0
    } else {
        digits_value(s.drop_last(), radix) * (radix as nat) + digit_value(s.last())
    }
}

/// How many digits of base `radix` `s` starts with.
pub open spec fn leading_digits(s: Seq<char>, radix: u32) -> nat
    decreases s.len(),
{
    if s.len() == 0 || !is_radix_digit(s[0], radix) {
        0
    } else {
        1 + leading_digits(s.drop_first(), radix)
    }
}

/// A Unicode scalar value: what a `char` can hold.
pub open spec fn is_scalar(code: u32) -> bool {
    code < 0xD800 || (0xE000 <= code && code <= 0x10FFFF)
}

/// The named character references understood, with their characters.
pub open spec fn named_entities() -> Seq<(Seq<char>, char)> {
    seq![
        ("amp;"@, '&'),
        ("lt;"@, '<'),
        ("gt;"@, '>'),
        ("quot;"@, '"'),
        ("apos;"@, '\''),
        ("nbsp;"@, '\u{00A0}'),
    ]
}

/// The first named reference, from entry `k` on, that `rest` starts with.
pub open spec fn named_entity(rest: Seq<char>, k: nat) -> Option<(char, nat)>
    decreases 6 - k,
{
    if k >= 6 {
        None
    } else if starts_with(rest, named_entities()[k as int].0) {
        Some((named_entities()[k as int].1, named_entities()[k as int].0.len()))
    } else {
        named_entity(rest, k + 1)
    }
}

/// A numeric reference at the start of `rest` (after the `&`): `#`, an
/// optional `x` or `X` for hex, digits and `;`, naming a valid `char`;
/// with how many characters it takes.
pub open spec fn numeric_entity(rest: Seq<char>) -> Option<(char, nat)> {
    if rest.len() > 0 && rest[0] == '#' {
        let after = rest.drop_first();
        let hex = after.len() > 0 && (after[0] == 'x' || after[0] == 'X');
        let radix: u32 = if hex {
            16
        } else {
            10
        };
        let digits = if hex {
            after.drop_first()
        } else {
            after
        };
        let prefix_len: nat = if hex {
            2
        } else {
            1
        };
        let n = leading_digits(digits, radix);
        let value = digits_value(digits.take(n as int), radix);
        if n > 0 && n < digits.len() && digits[n as int] == ';' && value <= u32::MAX && is_scalar(
            value as u32,
        ) {
            Some(((value as u32) as char, prefix_len + n + 1))
        } else {
            None
        }
    } else {
        None
    }
}

/// The character reference that `rest` (what follows an `&`) starts with,
/// with how many characters it takes: a numeric one, else a named one.
pub open spec fn entity(rest: Seq<char>) -> Option<(char, nat)> {
    match numeric_entity(rest) {
        Some(e) => Some(e),
        None => named_entity(rest, 0),
    }
}

/// The text that starts at `p`: up to the next `<` or the end, with
/// character references decoded; and the position after it.
pub open spec fn text_run(input: Seq<char>, p: int) -> (Seq<char>, int)
    decreases input.len() - p,
{
    if p < 0 || p >= input.len() || input[p] == '<' {
        (Seq::empty(), p)
    } else if input[p] == '&' && entity(input.skip(p + 1)) is Some && p + 1 + entity(
        input.skip(p + 1),
    ).unwrap().1 <= input.len() {
        let e = entity(input.skip(p + 1)).unwrap();
        let r = text_run(input, p + 1 + e.1);
        (seq![e.0] + r.0, r.1)
    } else {
        let r = text_run(input, p + 1);
        (seq![input[p]] + r.0, r.1)
    }
}

/// The first position at or after `p` that holds `target`, or the end.
pub open spec fn find_char(input: Seq<char>, p: int, target: char) -> int
    decreases input.len() - p,
{
    if 0 <= p < input.len() && input[p] != target {
        find_char(input, p + 1, target)
    } else {
        p
    }
}

/// The end of the run of tag-name characters that starts at `p`.
pub open spec fn name_end(input: Seq<char>, p: int) -> int
    decreases input.len() - p,
{
    if 0 <= p < input.len() && is_name_char(input[p]) {
        name_end(input, p + 1)
    } else {
        p
    }
}

/// A character that ends an attribute name.
pub open spec fn ends_attr_name(c: char) -> bool {
    c == '=' || c == '>' || c == '/' || is_white_space(c)
}

/// The end of the attribute name that starts at `p`.
pub open spec fn attr_name_end(input: Seq<char>, p: int) -> int
    decreases input.len() - p,
{
    if 0 <= p < input.len() && !ends_attr_name(input[p]) {
        attr_name_end(input, p + 1)
    } else {
        p
    }
}

/// The end of the unquoted attribute value that starts at `p`: the next
/// whitespace or `>`, or the end.
pub open spec fn bare_value_end(input: Seq<char>, p: int) -> int
    decreases input.len() - p,
{
    if 0 <= p < input.len() && !(is_white_space(input[p]) || input[p] == '>') {
        bare_value_end(input, p + 1)
    } else {
        p
    }
}

/// The attribute value that starts at `p`, just after its opening `quote`:
/// up to the closing quote or the end, with character references decoded;
/// and the position after the closing quote.
pub open spec fn quoted_value(input: Seq<char>, p: int, quote: char) -> (Seq<char>, int)
    decreases input.len() - p,
{
    if p < 0 || p >= input.len() {
        (Seq::empty(), p)
    } else if input[p] == quote {
        (Seq::empty(), p + 1)
    } else if input[p] == '&' && entity(input.skip(p + 1)) is Some && p + 1 + entity(
        input.skip(p + 1),
    ).unwrap().1 <= input.len() {
        let e = entity(input.skip(p + 1)).unwrap();
        let r = quoted_value(input, p + 1 + e.1, quote);
        (seq![e.0] + r.0, r.1)
    } else {
        let r = quoted_value(input, p + 1, quote);
        (seq![input[p]] + r.0, r.1)
    }
}

/// The attribute that starts at `p` inside a start tag, and the position
/// after it: its name (lowercased) runs up to `=`, `>`, `/` or whitespace;
/// an `=` may follow after whitespace, then after whitespace a value,
/// quoted (references decoded) or bare. An empty name gives no attribute
/// and skips one character.
pub open spec fn attribute_at(input: Seq<char>, p: int) -> (Option<(Seq<char>, Seq<char>)>, int) {
    let ne = attr_name_end(input, p);
    if ne == p {
        (None, p + 1)
    } else {
        let name = ascii_lowered(input.subrange(p, ne));
        let q = skip_ws(input, ne);
        if q < input.len() && input[q] == '=' {
            let r = skip_ws(input, q + 1);
            if r < input.len() && (input[r] == '"' || input[r] == '\'') {
                let v = quoted_value(input, r + 1, input[r]);
                (Some((name, v.0)), v.1)
            } else {
                let e = bare_value_end(input, r);
                (Some((name, input.subrange(r, e))), e)
            }
        } else {
            (Some((name, Seq::empty())), q)
        }
    }
}

/// The rest of a start tag from `p` on, after its name: the attributes
/// (appended to `attrs`), whether it closes with `/>`, and the position
/// after it. It ends at `>`, at `/` then `>` (whitespace allowed between),
/// or at the end of the input.
pub open spec fn tag_rest(input: Seq<char>, p: int, attrs: Seq<(Seq<char>, Seq<char>)>) -> (
    Seq<(Seq<char>, Seq<char>)>,
    bool,
    int,
)
    decreases input.len() - p,
{
    let q = skip_ws(input, p);
    if p < 0 || q < p || q >= input.len() {
        (attrs, false, q)
    } else if input[q] == '>' {
        (attrs, false, q + 1)
    } else if input[q] == '/' {
        let r = skip_ws(input, q + 1);
        if r < input.len() && input[r] == '>' {
            (attrs, true, r + 1)
        } else if p < r <= input.len() {
            tag_rest(input, r, attrs)
        } else {
            (attrs, false, r)
        }
    } else {
        let a = attribute_at(input, q);
        let more = match a.0 {
            Some(x) => attrs.push(x),
            None => attrs,
        };
        if p < a.1 <= input.len() {
            tag_rest(input, a.1, more)
        } else {
            (more, false, a.1)
        }
    }
}

/// The end of a comment whose text starts at `q`: just past the next
/// `-->`, or the end.
pub open spec fn comment_end(input: Seq<char>, q: int) -> int
    decreases input.len() - q,
{
    if q < 0 || q >= input.len() {
        q
    } else if starts_with(input.skip(q), "-->"@) {
        q + 3
    } else {
        comment_end(input, q + 1)
    }
}

/// Just past the `>` that ends a tag or declaration, searched from `p`,
/// or the end.
pub open spec fn past_gt(input: Seq<char>, p: int) -> int {
    let f = find_char(input, p, '>');
    if f < input.len() {
        f + 1
    } else {
        f
    }
}

/// Where the next token starts from `p` on: past comments (`<!--` to
/// `-->`) and other declarations (`<!` to `>`).
pub open spec fn token_start(input: Seq<char>, p: int) -> int
    decreases input.len() - p,
{
    if p < 0 || p >= input.len() || input[p] != '<' {
        p
    } else if starts_with(input.skip(p), "<!--"@) {
        let e = comment_end(input, p + 4);
        if p < e <= input.len() {
            token_start(input, e)
        } else {
            p
        }
    } else if starts_with(input.skip(p), "<!"@) {
        let e = past_gt(input, p);
        if p < e <= input.len() {
            token_start(input, e)
        } else {
            p
        }
    } else {
        p
    }
}

/// A start tag at `p` (a `<` and a letter): its lowercased name, its
/// attributes, whether it closes with `/>`, and the position after it.
pub open spec fn start_tag_at(input: Seq<char>, p: int) -> (
    Seq<char>,
    Seq<(Seq<char>, Seq<char>)>,
    bool,
    int,
) {
    let ne = name_end(input, p + 1);
    let rest = tag_rest(input, ne, Seq::empty());
    (ascii_lowered(input.subrange(p + 1, ne)), rest.0, rest.1, rest.2)
}

/// The views of attribute pairs.
pub open spec fn attrs_view(attrs: Seq<(String, String)>) -> Seq<(Seq<char>, Seq<char>)> {
    attrs.map_values(|a: (String, String)| (a.0@, a.1@))
}

/// At `q` stands the end tag `</tag` (ASCII case ignored), followed by
/// `>` or whitespace.
pub open spec fn closes_raw_at(input: Seq<char>, q: int, tag: Seq<char>) -> bool {
    &&& 0 <= q
    &&& q + 2 + tag.len() < input.len()
    &&& input[q] == '<'
    &&& input[q + 1] == '/'
    &&& forall|i: int| 0 <= i < tag.len() ==> ascii_lower(#[trigger] input[q + 2 + i]) == ascii_lower(tag[i])
    &&& (input[q + 2 + tag.len()] == '>' || is_white_space(input[q + 2 + tag.len()]))
}

/// A character of a tag name.
pub open spec fn is_name_char(c: char) -> bool {
    is_ascii_alnum(c) || c == '-'
}

/// A lowercased tag name: ASCII lowercase letters, digits and `-`.
pub open spec fn is_lower_name(s: Seq<char>) -> bool {
    forall|i: int| 0 <= i < s.len() ==> is_name_char(#[trigger] s[i]) && ascii_lower(s[i]) == s[i]
}

/// `char::from_u32`: the character with scalar value `code`, if any.
#[verifier::external_body]
fn char_from_u32(code: u32) -> (r: Option<char>)
    ensures
        r == (if is_scalar(code) {
            Some(code as char)
        } else {
            None
        }),
{
    char::from_u32(code)
}

proof fn lemma_leading_digits(s: Seq<char>, radix: u32)
    ensures
        leading_digits(s, radix) <= s.len(),
        forall|i: int| 0 <= i < leading_digits(s, radix) ==> is_radix_digit(#[trigger] s[i], radix),
        leading_digits(s, radix) < s.len() ==> !is_radix_digit(s[leading_digits(s, radix) as int], radix),
    decreases s.len(),
{
    if s.len() > 0 && is_radix_digit(s[0], radix) {
        lemma_leading_digits(s.drop_first(), radix);
        assert forall|i: int| 0 <= i < leading_digits(s, radix) implies is_radix_digit(#[trigger] s[i], radix) by {
            if i > 0 {
                assert(s[i] == s.drop_first()[i - 1]);
            }
        }
    }
}

proof fn lemma_leading_digits_exact(s: Seq<char>, radix: u32, n: int)
    requires
        0 <= n <= s.len(),
        forall|i: int| 0 <= i < n ==> is_radix_digit(#[trigger] s[i], radix),
        n == s.len() || !is_radix_digit(s[n], radix),
    ensures
        leading_digits(s, radix) == n,
    decreases n,
{
    if n > 0 {
        lemma_leading_digits_exact(s.drop_first(), radix, n - 1);
    }
}

/// Parses the digits `s` (all of base `radix`) as a `u32`, `None` when
/// the value does not fit.
fn parse_digits(s: &Vec<char>, radix: u32) -> (r: Option<u32>)
    requires
        radix == 10 || radix == 16,
        forall|i: int| 0 <= i < s.len() ==> is_radix_digit(#[trigger] s@[i], radix),
    ensures
        r == (if digits_value(s@, radix) <= u32::MAX {
            Some(digits_value(s@, radix) as u32)
        } else {
            None::<u32>
        }),
{
    let mut v: u32 = 0;
    let mut i: usize = 0;
    while i < s.len()
        invariant
            radix == 10 || radix == 16,
            i <= s.len(),
            forall|j: int| 0 <= j < s.len() ==> is_radix_digit(#[trigger] s@[j], radix),
            v == digits_value(s@.take(i as int), radix),
        decreases s.len() - i,
    {
        let c = s[i];
        let d: u32 = if '0' <= c && c <= '9' {
            (c as u32) - ('0' as u32)
        } else if 'a' <= c && c <= 'f' {
            (c as u32) - ('a' as u32) + 10
        } else {
            (c as u32) - ('A' as u32) + 10
        };
        proof {
            assert(s@.take(i + 1).drop_last() =~= s@.take(i as int));
            assert(d as nat == digit_value(c));
            assert(d < radix);
        }
        match v.checked_mul(radix) {
            Some(m) => match m.checked_add(d) {
                Some(a) => {
                    v = a;
                },
                None => {
                    proof {
                        lemma_digits_value_grows(s@, radix, i as int + 1);
                    }
                    return None;
                },
            },
            None => {
                proof {
                    lemma_digits_value_grows(s@, radix, i as int + 1);
                }
                return None;
            },
        }
        i += 1;
    }
    assert(s@.take(s.len() as int) =~= s@);
    Some(v)
}

/// Extending the digits never makes the value smaller.
proof fn lemma_digits_value_grows(s: Seq<char>, radix: u32, k: int)
    requires
        radix == 10 || radix == 16,
        0 <= k <= s.len(),
    ensures
        digits_value(s.take(k), radix) <= digits_value(s, radix),
    decreases s.len() - k,
{
    if k < s.len() {
        lemma_digits_value_grows(s, radix, k + 1);
        assert(s.take(k + 1).drop_last() =~= s.take(k));
        let a = digits_value(s.take(k), radix);
        assert(a <= a * radix) by (nonlinear_arith)
            requires
                radix >= 1,
        ;
    } else {
        assert(s.take(k) =~= s);
    }
}

impl Tokenizer {
    pub closed spec fn spec_input(&self) -> Seq<char> {
        self.input@
    }

    pub closed spec fn spec_pos(&self) -> int {
        self.pos as int
    }

    /// The position never passes the end of the input.
    pub closed spec fn wf(&self) -> bool {
        self.pos <= self.input.len()
    }

    pub proof fn lemma_pos_bound(&self)
        requires
            self.wf(),
        ensures
            0 <= self.spec_pos() <= self.spec_input().len(),
    {
    }

    pub fn new(input: &str) -> (t: Self)
        ensures
            t.wf(),
            t.spec_input() == input@,
            t.spec_pos() == 0,
    {
        Self { input: chars_of(input), pos: 0 }
    }

    fn eof(&self) -> (r: bool)
        requires
            self.wf(),
        ensures
            r == (self.pos == self.input.len()),
    {
        self.pos >= self.input.len()
    }

    fn peek_char(&self) -> (r: Option<char>)
        requires
            self.wf(),
        ensures
            r == (if self.pos < self.input.len() {
                Some(self.input@[self.pos as int])
            } else {
                None::<char>
            }),
    {
        if self.pos < self.input.len() {
            Some(self.input[self.pos])
        } else {
            None
        }
    }

    /// Whether the input at `at` starts with `s`.
    fn starts_at(&self, at: usize, s: &str) -> (r: bool)
        ensures
            r == (at <= self.input.len() && starts_with(self.input@.skip(at as int), s@)),
    {
        let lit = chars_of(s);
        if at > self.input.len() || lit.len() > self.input.len() - at {
            return false;
        }
        let mut i: usize = 0;
        while i < lit.len()
            invariant
                at + lit.len() <= self.input.len(),
                i <= lit.len(),
                lit@ == s@,
                forall|j: int| 0 <= j < i ==> self.input@[at + j] == lit@[j],
            decreases lit.len() - i,
        {
            if self.input[at + i] != lit[i] {
                assert(self.input@.skip(at as int).take(lit.len() as int)[i as int] != lit@[i as int]);
                return false;
            }
            i += 1;
        }
        assert(self.input@.skip(at as int).take(lit.len() as int) =~= lit@);
        true
    }

    fn peek_str(&self, s: &str) -> (r: bool)
        requires
            self.wf(),
        ensures
            r == starts_with(self.input@.skip(self.pos as int), s@),
    {
        self.starts_at(self.pos, s)
    }

    fn advance(&mut self) -> (r: Option<char>)
        requires
            old(self).wf(),
        ensures
            final(self).wf(),
            final(self).input == old(self).input,
            r == (if old(self).pos < old(self).input.len() {
                Some(old(self).input@[old(self).pos as int])
            } else {
                None::<char>
            }),
            final(self).pos == (if old(self).pos < old(self).input.len() {
                old(self).pos + 1
            } else {
                old(self).pos as int
            }),
    {
        let c = self.peek_char();
        if c.is_some() {
            self.pos += 1;
        }
        c
    }

    fn skip_whitespace(&mut self)
        requires
            old(self).wf(),
        ensures
            final(self).wf(),
            final(self).input == old(self).input,
            old(self).pos <= final(self).pos,
            final(self).pos == final(self).input.len() || !is_white_space(
                final(self).input@[final(self).pos as int],
            ),
            final(self).pos == skip_ws(old(self).input@, old(self).pos as int),
    {
        while self.pos < self.input.len() && is_whitespace(self.input[self.pos])
            invariant
                self.wf(),
                self.input == old(self).input,
                old(self).pos <= self.pos,
                skip_ws(self.input@, self.pos as int) == skip_ws(self.input@, old(self).pos as int),
            decreases self.input.len() - self.pos,
        {
            self.pos += 1;
        }
    }

    fn skip_until(&mut self, target: char)
        requires
            old(self).wf(),
        ensures
            final(self).wf(),
            final(self).input == old(self).input,
            old(self).pos <= final(self).pos,
            final(self).pos == final(self).input.len() || final(self).input@[final(self).pos as int]
                == target,
            final(self).pos == find_char(old(self).input@, old(self).pos as int, target),
    {
        while self.pos < self.input.len() && self.input[self.pos] != target
            invariant
                self.wf(),
                self.input == old(self).input,
                old(self).pos <= self.pos,
                find_char(self.input@, self.pos as int, target) == find_char(
                    self.input@,
                    old(self).pos as int,
                    target,
                ),
            decreases self.input.len() - self.pos,
        {
            self.pos += 1;
        }
    }

    /// The character reference starting at `start` (just after an `&`).
    fn decode_entity_at(&self, start: usize) -> (r: Option<(char, usize)>)
        requires
            self.wf(),
            start <= self.input.len(),
        ensures
            match r {
                Some((c, n)) => entity(self.input@.skip(start as int)) == Some((c, n as nat)),
                None => entity(self.input@.skip(start as int)) is None,
            },
            r matches Some((c, n)) ==> start + n <= self.input.len(),
    {
        let ghost rest = self.input@.skip(start as int);
        let numeric = self.decode_numeric_at(start);
        match numeric {
            Some(e) => {
                return Some(e);
            },
            None => {},
        }
        let named = self.decode_named_at(start);
        named
    }

    fn decode_numeric_at(&self, start: usize) -> (r: Option<(char, usize)>)
        requires
            self.wf(),
            start <= self.input.len(),
        ensures
            match r {
                Some((c, n)) => numeric_entity(self.input@.skip(start as int)) == Some((c, n as nat)),
                None => numeric_entity(self.input@.skip(start as int)) is None,
            },
            r matches Some((c, n)) ==> start + n <= self.input.len(),
    {
        let ghost rest = self.input@.skip(start as int);
        let len = self.input.len();
        if start >= len || self.input[start] != '#' {
            return None;
        }
        let ghost after = rest.drop_first();
        let hex = start + 1 < len && (self.input[start + 1] == 'x' || self.input[start + 1] == 'X');
        let radix: u32 = if hex {
            16
        } else {
            10
        };
        let first: usize = if hex {
            start + 2
        } else {
            start + 1
        };
        let ghost digits = self.input@.skip(first as int);
        proof {
            assert(after =~= self.input@.skip(start + 1));
            if hex {
                assert(after.drop_first() =~= digits);
            }
        }
        let mut end: usize = first;
        while end < len && (('0' <= self.input[end] && self.input[end] <= '9') || (hex && (('a'
            <= self.input[end] && self.input[end] <= 'f') || ('A' <= self.input[end]
            && self.input[end] <= 'F'))))
            invariant
                first <= end <= len,
                len == self.input.len(),
                digits == self.input@.skip(first as int),
                radix == (if hex { 16u32 } else { 10u32 }),
                forall|i: int| first <= i < end ==> is_radix_digit(#[trigger] self.input@[i], radix),
            decreases len - end,
        {
            end += 1;
        }
        let n = end - first;
        proof {
            lemma_leading_digits_exact(digits, radix, n as int);
        }
        if n == 0 || end >= len || self.input[end] != ';' {
            return None;
        }
        let mut ds: Vec<char> = Vec::new();
        let mut k: usize = first;
        while k < end
            invariant
                first <= k <= end,
                end < len,
                len == self.input.len(),
                ds@ == self.input@.subrange(first as int, k as int),
            decreases end - k,
        {
            ds.push(self.input[k]);
            assert(self.input@.subrange(first as int, k + 1) =~= self.input@.subrange(first as int, k as int).push(self.input@[k as int]));
            k += 1;
        }
        proof {
            assert(ds@ =~= digits.take(n as int));
            assert forall|i: int| 0 <= i < ds.len() implies is_radix_digit(#[trigger] ds@[i], radix) by {
                assert(ds@[i] == self.input@[first + i]);
            }
        }
        match parse_digits(&ds, radix) {
            Some(code) => match char_from_u32(code) {
                Some(ch) => Some((ch, (first - start) + n + 1)),
                None => None,
            },
            None => None,
        }
    }

    fn decode_named_at(&self, start: usize) -> (r: Option<(char, usize)>)
        requires
            self.wf(),
            start <= self.input.len(),
        ensures
            match r {
                Some((c, n)) => named_entity(self.input@.skip(start as int), 0) == Some((c, n as nat)),
                None => named_entity(self.input@.skip(start as int), 0) is None,
            },
            r matches Some((c, n)) ==> start + n <= self.input.len(),
    {
        let ghost rest = self.input@.skip(start as int);
        proof {
            reveal_strlit("amp;");
            reveal_strlit("lt;");
            reveal_strlit("gt;");
            reveal_strlit("quot;");
            reveal_strlit("apos;");
            reveal_strlit("nbsp;");
            reveal_with_fuel(named_entity, 7);
        }
        if self.starts_at(start, "amp;") {
            return Some(('&', 4));
        }
        if self.starts_at(start, "lt;") {
            return Some(('<', 3));
        }
        if self.starts_at(start, "gt;") {
            return Some(('>', 3));
        }
        if self.starts_at(start, "quot;") {
            return Some(('"', 5));
        }
        if self.starts_at(start, "apos;") {
            return Some(('\'', 5));
        }
        if self.starts_at(start, "nbsp;") {
            return Some(('\u{00A0}', 5));
        }
        None
    }

    /// Reads the longest run of tag-name characters.
    fn read_tag_name(&mut self) -> (name: Vec<char>)
        requires
            old(self).wf(),
        ensures
            final(self).wf(),
            final(self).input == old(self).input,
            old(self).pos <= final(self).pos,
            name@ == final(self).input@.subrange(old(self).pos as int, final(self).pos as int),
            forall|i: int| 0 <= i < name.len() ==> is_name_char(#[trigger] name@[i]),
            final(self).pos == final(self).input.len() || !is_name_char(
                final(self).input@[final(self).pos as int],
            ),
            final(self).pos == name_end(old(self).input@, old(self).pos as int),
    {
        let mut name: Vec<char> = Vec::new();
        while self.pos < self.input.len() && (is_alnum(self.input[self.pos]) || self.input[self.pos]
            == '-')
            invariant
                self.wf(),
                self.input == old(self).input,
                old(self).pos <= self.pos,
                name_end(self.input@, self.pos as int) == name_end(self.input@, old(self).pos as int),
                name@ == self.input@.subrange(old(self).pos as int, self.pos as int),
                forall|i: int| 0 <= i < name.len() ==> is_name_char(#[trigger] name@[i]),
            decreases self.input.len() - self.pos,
        {
            name.push(self.input[self.pos]);
            self.pos += 1;
            assert(name@ =~= self.input@.subrange(old(self).pos as int, self.pos as int));
        }
        name
    }

    /// Reads one attribute: a name, then optionally `=` and a quoted or
    /// bare value (character references are decoded in quoted values). An
    /// empty name skips one character and gives no attribute.
    fn read_attribute(&mut self) -> (r: Option<(String, String)>)
        requires
            old(self).wf(),
            old(self).pos < old(self).input.len(),
        ensures
            final(self).wf(),
            final(self).input == old(self).input,
            old(self).pos < final(self).pos,
            final(self).pos == attribute_at(old(self).input@, old(self).pos as int).1,
            match r {
                Some((n, v)) => attribute_at(old(self).input@, old(self).pos as int).0 == Some(
                    (n@, v@),
                ),
                None => attribute_at(old(self).input@, old(self).pos as int).0 is None,
            },
    {
        let ghost inp = self.input@;
        let ghost p0 = self.pos as int;
        let mut name: Vec<char> = Vec::new();
        while self.pos < self.input.len()
            invariant
                self.wf(),
                self.input == old(self).input,
                inp == self.input@,
                0 <= p0 <= self.pos,
                name@ == ascii_lowered(inp.subrange(p0, self.pos as int)),
                attr_name_end(inp, self.pos as int) == attr_name_end(inp, p0),
            ensures
                self.wf(),
                self.input == old(self).input,
                p0 <= self.pos,
                name@ == ascii_lowered(inp.subrange(p0, self.pos as int)),
                self.pos == attr_name_end(inp, p0),
            decreases self.input.len() - self.pos,
        {
            let c = self.input[self.pos];
            if c == '=' || c == '>' || c == '/' || is_whitespace(c) {
                break;
            }
            let ghost before = name@;
            name.push(to_lower(c));
            self.pos += 1;
            assert(inp.subrange(p0, self.pos as int) =~= inp.subrange(p0, self.pos - 1).push(c));
            assert(name@ == before.push(ascii_lower(c)));
            assert(name@ =~= ascii_lowered(inp.subrange(p0, self.pos as int)));
        }
        if name.len() == 0 {
            self.advance();
            return None;
        }
        let ghost ne = self.pos as int;
        self.skip_whitespace();
        let mut value: Vec<char> = Vec::new();
        if self.peek_char() == Some('=') {
            self.advance();
            self.skip_whitespace();
            let ghost r0 = self.pos as int;
            match self.peek_char() {
                Some(q) => {
                    if q == '"' || q == '\'' {
                        self.advance();
                        let ghost v0 = self.pos as int;
                        while self.pos < self.input.len()
                            invariant_except_break
                                value@ + quoted_value(inp, self.pos as int, q).0 == quoted_value(
                                    inp,
                                    v0,
                                    q,
                                ).0,
                                quoted_value(inp, self.pos as int, q).1 == quoted_value(inp, v0, q).1,
                            invariant
                                self.wf(),
                                self.input == old(self).input,
                                inp == self.input@,
                                0 <= p0 < v0 <= self.pos,
                            ensures
                                self.wf(),
                                self.input == old(self).input,
                                p0 < self.pos,
                                value@ == quoted_value(inp, v0, q).0,
                                self.pos == quoted_value(inp, v0, q).1,
                            decreases self.input.len() - self.pos,
                        {
                            let c = self.input[self.pos];
                            if c == q {
                                proof {
                                    assert(value@ + Seq::<char>::empty() =~= value@);
                                }
                                self.advance();
                                break;
                            }
                            if c == '&' {
                                match self.decode_entity_at(self.pos + 1) {
                                    Some((decoded, len)) => {
                                        proof {
                                            assert(value@.push(decoded) + quoted_value(inp, self.pos + 1 + len, q).0
                                                =~= value@ + quoted_value(inp, self.pos as int, q).0);
                                        }
                                        value.push(decoded);
                                        self.pos = self.pos + 1 + len;
                                        continue;
                                    },
                                    None => {},
                                }
                            }
                            proof {
                                assert(value@.push(c) + quoted_value(inp, self.pos + 1, q).0 =~= value@
                                    + quoted_value(inp, self.pos as int, q).0);
                            }
                            value.push(c);
                            self.pos += 1;
                        }
                    } else {
                        while self.pos < self.input.len()
                            invariant
                                self.wf(),
                                self.input == old(self).input,
                                inp == self.input@,
                                0 <= p0 < r0 <= self.pos,
                                value@ == inp.subrange(r0, self.pos as int),
                                bare_value_end(inp, self.pos as int) == bare_value_end(inp, r0),
                            ensures
                                self.wf(),
                                self.input == old(self).input,
                                p0 < r0 <= self.pos,
                                value@ == inp.subrange(r0, self.pos as int),
                                self.pos == bare_value_end(inp, r0),
                            decreases self.input.len() - self.pos,
                        {
                            let c = self.input[self.pos];
                            if is_whitespace(c) || c == '>' {
                                break;
                            }
                            value.push(c);
                            self.pos += 1;
                            assert(inp.subrange(r0, self.pos as int) =~= inp.subrange(r0, self.pos - 1).push(c));
                        }
                    }
                },
                None => {
                    assert(value@ =~= inp.subrange(r0, r0));
                },
            }
        }
        Some((string_from(&name), string_from(&value)))
    }

    /// Reads a start tag: `<`, its name, its attributes, up to `>` or `/>`.
    fn read_start_tag(&mut self) -> (t: Token)
        requires
            old(self).wf(),
            old(self).pos < old(self).input.len(),
        ensures
            final(self).wf(),
            final(self).input == old(self).input,
            old(self).pos < final(self).pos,
            ({
                let inp = old(self).input@;
                let ne = name_end(inp, old(self).pos + 1);
                let rest = tag_rest(inp, ne, Seq::empty());
                &&& t matches Token::StartTag { name, attrs, self_closing } && name@ == ascii_lowered(
                    inp.subrange(old(self).pos + 1, ne),
                ) && attrs_view(attrs@) == rest.0 && self_closing == rest.1
                &&& final(self).pos == rest.2
            }),
            t matches Token::StartTag { name, .. } && is_lower_name(name@),
    {
        let ghost inp = self.input@;
        self.advance();
        let raw = self.read_tag_name();
        let name = lower_name(&raw);
        let ghost ne = self.pos as int;
        let ghost start = self.pos as int;
        let mut attrs: Vec<(String, String)> = Vec::new();
        let mut self_closing = false;
        proof {
            assert(attrs_view(attrs@) =~= Seq::<(Seq<char>, Seq<char>)>::empty());
        }
        loop
            invariant_except_break
                tag_rest(inp, self.pos as int, attrs_view(attrs@)) == tag_rest(inp, ne, Seq::empty()),
                !self_closing,
            invariant
                self.wf(),
                self.input == old(self).input,
                inp == self.input@,
                old(self).pos < start <= self.pos,
            ensures
                self.wf(),
                self.input == old(self).input,
                old(self).pos < self.pos,
                (attrs_view(attrs@), self_closing, self.pos as int) == tag_rest(inp, ne, Seq::empty()),
            decreases self.input.len() - self.pos,
        {
            let ghost p = self.pos as int;
            self.skip_whitespace();
            let ghost q = self.pos as int;
            match self.peek_char() {
                None => {
                    break;
                },
                Some(c) => {
                    if c == '>' {
                        self.advance();
                        break;
                    } else if c == '/' {
                        self.advance();
                        self.skip_whitespace();
                        if self.peek_char() == Some('>') {
                            self.advance();
                            self_closing = true;
                            break;
                        }
                    } else {
                        let ghost before = attrs@;
                        match self.read_attribute() {
                            Some(attr) => {
                                attrs.push(attr);
                                proof {
                                    assert(attrs_view(attrs@) =~= attrs_view(before).push(
                                        (attr.0@, attr.1@),
                                    ));
                                }
                            },
                            None => {},
                        }
                    }
                },
            }
        }
        Token::StartTag { name: string_from(&name), attrs, self_closing }
    }

    fn read_end_tag(&mut self) -> (t: Token)
        requires
            old(self).wf(),
            old(self).pos + 2 <= old(self).input.len(),
        ensures
            final(self).wf(),
            final(self).input == old(self).input,
            old(self).pos < final(self).pos,
            t matches Token::EndTag { name } && is_lower_name(name@),
            ({
                let inp = old(self).input@;
                let ne = name_end(inp, old(self).pos + 2);
                &&& t matches Token::EndTag { name } && name@ == ascii_lowered(
                    inp.subrange(old(self).pos + 2, ne),
                )
                &&& final(self).pos == past_gt(inp, ne)
            }),
    {
        self.pos += 2;
        let raw = self.read_tag_name();
        let name = lower_name(&raw);
        self.skip_until('>');
        if self.peek_char() == Some('>') {
            self.advance();
        }
        Token::EndTag { name: string_from(&name) }
    }

    /// Reads text up to the next `<`, decoding character references.
    fn read_text(&mut self) -> (t: Token)
        requires
            old(self).wf(),
        ensures
            final(self).wf(),
            final(self).input == old(self).input,
            t matches Token::Text(s) && s@ == text_run(old(self).input@, old(self).pos as int).0,
            final(self).pos == text_run(old(self).input@, old(self).pos as int).1,
    {
        let ghost inp = self.input@;
        let ghost start = self.pos as int;
        let mut text: Vec<char> = Vec::new();
        while self.pos < self.input.len()
            invariant
                self.wf(),
                self.input == old(self).input,
                inp == self.input@,
                text@ + text_run(inp, self.pos as int).0 == text_run(inp, start).0,
                text_run(inp, self.pos as int).1 == text_run(inp, start).1,
            ensures
                self.wf(),
                self.input == old(self).input,
                inp == self.input@,
                text@ + text_run(inp, self.pos as int).0 == text_run(inp, start).0,
                text_run(inp, self.pos as int).1 == text_run(inp, start).1,
                self.pos == self.input.len() || self.input@[self.pos as int] == '<',
            decreases self.input.len() - self.pos,
        {
            let c = self.input[self.pos];
            if c == '<' {
                break;
            }
            if c == '&' {
                match self.decode_entity_at(self.pos + 1) {
                    Some((decoded, len)) => {
                        proof {
                            assert(text@.push(decoded) + text_run(inp, self.pos + 1 + len).0 =~= text@ + text_run(inp, self.pos as int).0);
                        }
                        text.push(decoded);
                        self.pos = self.pos + 1 + len;
                        continue;
                    },
                    None => {},
                }
            }
            proof {
                assert(text@.push(c) + text_run(inp, self.pos + 1).0 =~= text@ + text_run(inp, self.pos as int).0);
            }
            text.push(c);
            self.pos += 1;
        }
        proof {
            assert(text@ + Seq::<char>::empty() =~= text@);
        }
        Token::Text(string_from(&text))
    }

    /// Whether the end tag `</tag_name` (ASCII case ignored), followed by
    /// `>` or whitespace, starts at the current position.
    fn at_raw_end(&self, tag: &Vec<char>) -> (r: bool)
        requires
            self.wf(),
        ensures
            r == closes_raw_at(self.input@, self.pos as int, tag@),
    {
        let len = self.input.len();
        let p = self.pos;
        if p >= len || tag.len() >= len - p || len - p - tag.len() <= 2 {
            return false;
        }
        if self.input[p] != '<' || self.input[p + 1] != '/' {
            return false;
        }
        let mut i: usize = 0;
        while i < tag.len()
            invariant
                p + 2 + tag.len() < len,
                len == self.input.len(),
                p == self.pos,
                i <= tag.len(),
                forall|j: int| 0 <= j < i ==> ascii_lower(#[trigger] self.input@[p + 2 + j]) == ascii_lower(tag@[j]),
            decreases tag.len() - i,
        {
            if to_lower(self.input[p + 2 + i]) != to_lower(tag[i]) {
                return false;
            }
            i += 1;
        }
        let c = self.input[p + 2 + tag.len()];
        c == '>' || is_whitespace(c)
    }

    /// Reads raw text up to the end tag of `tag_name` (or the end of the
    /// input), leaving that end tag unread.
    pub fn read_raw_text_until(&mut self, tag_name: &str) -> (text: String)
        requires
            old(self).wf(),
        ensures
            final(self).wf(),
            final(self).spec_input() == old(self).spec_input(),
            old(self).spec_pos() <= final(self).spec_pos(),
            text@ == old(self).spec_input().subrange(old(self).spec_pos(), final(self).spec_pos()),
            forall|q: int|
                old(self).spec_pos() <= q < final(self).spec_pos() ==> !closes_raw_at(
                    old(self).spec_input(),
                    q,
                    tag_name@,
                ),
            final(self).spec_pos() == old(self).spec_input().len() || closes_raw_at(
                old(self).spec_input(),
                final(self).spec_pos(),
                tag_name@,
            ),
    {
        let tag = chars_of(tag_name);
        let mut text: Vec<char> = Vec::new();
        loop
            invariant_except_break
                self.wf(),
                self.input == old(self).input,
                old(self).pos <= self.pos,
                tag@ == tag_name@,
                text@ == self.input@.subrange(old(self).pos as int, self.pos as int),
                forall|q: int| old(self).pos <= q < self.pos ==> !closes_raw_at(self.input@, q, tag@),
            ensures
                self.wf(),
                self.input == old(self).input,
                old(self).pos <= self.pos,
                text@ == self.input@.subrange(old(self).pos as int, self.pos as int),
                forall|q: int| old(self).pos <= q < self.pos ==> !closes_raw_at(self.input@, q, tag@),
                self.pos == self.input.len() || closes_raw_at(self.input@, self.pos as int, tag@),
            decreases self.input.len() - self.pos,
        {
            if self.eof() {
                break;
            }
            if self.at_raw_end(&tag) {
                break;
            }
            let c = self.input[self.pos];
            text.push(c);
            self.pos += 1;
            assert(text@ =~= self.input@.subrange(old(self).pos as int, self.pos as int));
        }
        string_from(&text)
    }

    /// The next token, skipping comments and other `<!` declarations;
    /// `None` at the end of the input. A `<` that starts no tag is text.
    pub fn next_token(&mut self) -> (r: Option<Token>)
        requires
            old(self).wf(),
        ensures
            final(self).wf(),
            final(self).spec_input() == old(self).spec_input(),
            old(self).spec_pos() <= final(self).spec_pos(),
            r is None ==> final(self).spec_pos() == final(self).spec_input().len(),
            r is Some ==> old(self).spec_pos() < final(self).spec_pos(),
            ({
                let inp = old(self).spec_input();
                let s = token_start(inp, old(self).spec_pos());
                &&& s >= inp.len() ==> r is None
                &&& s < inp.len() && inp[s] != '<' ==> (r matches Some(Token::Text(t)) && t@
                    == text_run(inp, s).0 && final(self).spec_pos() == text_run(inp, s).1)
                &&& s < inp.len() && inp[s] == '<' && starts_with(inp.skip(s), "</"@) ==> (r matches Some(
                    Token::EndTag { name },
                ) && name@ == ascii_lowered(inp.subrange(s + 2, name_end(inp, s + 2)))
                    && final(self).spec_pos() == past_gt(inp, name_end(inp, s + 2)))
                &&& s + 1 < inp.len() && inp[s] == '<' && !starts_with(inp.skip(s), "</"@)
                    && is_ascii_alpha(inp[s + 1]) ==> (r matches Some(
                    Token::StartTag { name, attrs, self_closing },
                ) && start_tag_at(inp, s) == (
                    name@,
                    attrs_view(attrs@),
                    self_closing,
                    final(self).spec_pos(),
                ))
                &&& s < inp.len() && inp[s] == '<' && !starts_with(inp.skip(s), "</"@) && !(s + 1
                    < inp.len() && is_ascii_alpha(inp[s + 1])) ==> (r matches Some(Token::Text(t))
                    && t@ == seq!['<'] && final(self).spec_pos() == s + 1)
            }),
            r matches Some(Token::StartTag { name, .. }) ==> is_lower_name(name@),
            r matches Some(Token::EndTag { name }) ==> is_lower_name(name@),
            r matches Some(Token::Text(t)) ==> t@.len() > 0,
    {
        let ghost inp = self.input@;
        let ghost p0 = self.pos as int;
        loop
            invariant
                self.wf(),
                self.input == old(self).input,
                inp == self.input@,
                0 <= p0 <= self.pos,
                p0 == old(self).pos,
                token_start(inp, self.pos as int) == token_start(inp, p0),
                self.pos > old(self).pos ==> self.pos > 0 && old(self).pos < self.input.len() && self.input@[old(self).pos as int] == '<',
            decreases self.input.len() - self.pos,
        {
            proof {
                reveal_strlit("<!--");
                reveal_strlit("-->");
                reveal_strlit("<!");
                reveal_strlit("</");
            }
            let ghost p = self.pos as int;
            if self.eof() {
                return None;
            }
            if self.input[self.pos] != '<' {
                let ghost p1 = self.pos as int;
                let t = self.read_text();
                proof {
                    lemma_text_run_progress(self.input@, p1);
                }
                return Some(t);
            }
            if self.peek_str("<!--") {
                assert("<!--"@.len() == 4);
                assert(self.pos + 4 <= self.input.len());
                let ghost it_start = self.pos;
                self.pos += 4;
                while !self.eof() && !self.peek_str("-->")
                    invariant
                        self.wf(),
                        self.input == old(self).input,
                        inp == self.input@,
                        old(self).pos < self.pos,
                        it_start < self.pos,
                        it_start + 4 <= self.pos,
                        comment_end(inp, self.pos as int) == comment_end(inp, it_start + 4),
                    decreases self.input.len() - self.pos,
                {
                    self.advance();
                }
                if self.peek_str("-->") {
                    assert("-->"@.len() == 3);
                    self.pos += 3;
                }
                continue;
            }
            if self.peek_str("<!") {
                self.skip_until('>');
                if self.peek_char() == Some('>') {
                    self.advance();
                }
                continue;
            }
            if self.peek_str("</") {
                return Some(self.read_end_tag());
            }
            if self.pos + 1 < self.input.len() && is_alpha(self.input[self.pos + 1]) {
                return Some(self.read_start_tag());
            }
            self.advance();
            let mut lt: Vec<char> = Vec::new();
            lt.push('<');
            assert(lt@ =~= seq!['<']);
            return Some(Token::Text(string_from(&lt)));
        }
    }
}

/// `name` with ASCII letters lowercased.
fn lower_name(name: &Vec<char>) -> (r: Vec<char>)
    requires
        forall|i: int| 0 <= i < name.len() ==> is_name_char(#[trigger] name@[i]),
    ensures
        is_lower_name(r@),
        r@ == ascii_lowered(name@),
{
    let mut r: Vec<char> = Vec::new();
    let mut i: usize = 0;
    while i < name.len()
        invariant
            i <= name.len(),
            r.len() == i,
            forall|j: int| 0 <= j < name.len() ==> is_name_char(#[trigger] name@[j]),
            forall|j: int| 0 <= j < i ==> #[trigger] r@[j] == ascii_lower(name@[j]),
        decreases name.len() - i,
    {
        r.push(to_lower(name[i]));
        i += 1;
    }
    assert(r@ =~= ascii_lowered(name@));
    r
}


proof fn lemma_text_run_progress(input: Seq<char>, p: int)
    requires
        0 <= p <= input.len(),
    ensures
        p <= text_run(input, p).1 <= input.len(),
        p < input.len() && input[p] != '<' ==> p < text_run(input, p).1 && text_run(input, p).0.len() > 0,
    decreases input.len() - p,
{
    if p < input.len() && input[p] != '<' {
        if input[p] == '&' && entity(input.skip(p + 1)) is Some && p + 1 + entity(input.skip(p + 1)).unwrap().1 <= input.len() {
            lemma_text_run_progress(input, p + 1 + entity(input.skip(p + 1)).unwrap().1);
        } else {
            lemma_text_run_progress(input, p + 1);
        }
    }
}

} // verus!
