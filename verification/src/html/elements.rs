use vstd::prelude::*;

use crate::text::chars_of;

verus! {

/// The HTML void elements: they never have children.
pub open spec fn void_tag(t: Seq<char>) -> bool {
    ||| t == "area"@
    ||| t == "base"@
    ||| t == "br"@
    ||| t == "col"@
    ||| t == "embed"@
    ||| t == "hr"@
    ||| t == "img"@
    ||| t == "input"@
    ||| t == "link"@
    ||| t == "meta"@
    ||| t == "param"@
    ||| t == "source"@
    ||| t == "track"@
    ||| t == "wbr"@
}

/// The elements whose content is raw text, not markup.
pub open spec fn raw_text_tag(t: Seq<char>) -> bool {
    t == "script"@ || t == "style"@
}

/// An open `open_tag` element is closed by the start of a `new_tag`
/// element: a paragraph by the start of a block, a list item by the next
/// list item.
pub open spec fn closes(open_tag: Seq<char>, new_tag: Seq<char>) -> bool {
    ||| open_tag == "p"@ && (new_tag == "p"@ || new_tag == "div"@ || new_tag == "ul"@ || new_tag
        == "ol"@ || new_tag == "li"@ || new_tag == "h1"@ || new_tag == "h2"@ || new_tag == "h3"@
        || new_tag == "h4"@ || new_tag == "h5"@ || new_tag == "h6"@)
    ||| open_tag == "li"@ && new_tag == "li"@
}

/// Whether the characters `t` spell `lit`.
pub fn chars_are(t: &Vec<char>, lit: &str) -> (r: bool)
    ensures
        r == (t@ == lit@),
{
    let l = chars_of(lit);
    if t.len() != l.len() {
        return false;
    }
    let mut i: usize = 0;
    while i < t.len()
        invariant
            i <= t.len(),
            t.len() == l.len(),
            l@ == lit@,
            forall|j: int| 0 <= j < i ==> t@[j] == l@[j],
        decreases t.len() - i,
    {
        if t[i] != l[i] {
            return false;
        }
        i += 1;
    }
    assert(t@ =~= l@);
    true
}

/// Whether `a` and `b` hold the same characters.
pub fn chars_eq(a: &Vec<char>, b: &Vec<char>) -> (r: bool)
    ensures
        r == (a@ == b@),
{
    if a.len() != b.len() {
        return false;
    }
    let mut i: usize = 0;
    while i < a.len()
        invariant
            i <= a.len(),
            a.len() == b.len(),
            forall|j: int| 0 <= j < i ==> a@[j] == b@[j],
        decreases a.len() - i,
    {
        if a[i] != b[i] {
            return false;
        }
        i += 1;
    }
    assert(a@ =~= b@);
    true
}

pub(crate) fn is_void_chars(t: &Vec<char>) -> (r: bool)
    ensures
        r == void_tag(t@),
{
    chars_are(t, "area") || chars_are(t, "base") || chars_are(t, "br") || chars_are(t, "col")
        || chars_are(t, "embed") || chars_are(t, "hr") || chars_are(t, "img") || chars_are(
        t,
        "input",
    ) || chars_are(t, "link") || chars_are(t, "meta") || chars_are(t, "param") || chars_are(
        t,
        "source",
    ) || chars_are(t, "track") || chars_are(t, "wbr")
}

pub(crate) fn is_raw_text_chars(t: &Vec<char>) -> (r: bool)
    ensures
        r == raw_text_tag(t@),
{
    chars_are(t, "script") || chars_are(t, "style")
}

pub(crate) fn closes_chars(open_tag: &Vec<char>, new_tag: &Vec<char>) -> (r: bool)
    ensures
        r == closes(open_tag@, new_tag@),
{
    if chars_are(open_tag, "p") {
        chars_are(new_tag, "p") || chars_are(new_tag, "div") || chars_are(new_tag, "ul")
            || chars_are(new_tag, "ol") || chars_are(new_tag, "li") || chars_are(new_tag, "h1")
            || chars_are(new_tag, "h2") || chars_are(new_tag, "h3") || chars_are(new_tag, "h4")
            || chars_are(new_tag, "h5") || chars_are(new_tag, "h6")
    } else if chars_are(open_tag, "li") {
        chars_are(new_tag, "li")
    } else {
        false
    }
}

/// Whether `tag` names a void element (one that never has children).
pub fn is_void_element(tag: &str) -> (r: bool)
    ensures
        r == void_tag(tag@),
{
    let t = chars_of(tag);
    is_void_chars(&t)
}

/// Whether `tag` names an element whose content is raw text.
pub fn is_raw_text_element(tag: &str) -> (r: bool)
    ensures
        r == raw_text_tag(tag@),
{
    let t = chars_of(tag);
    is_raw_text_chars(&t)
}

/// Whether an open `open_tag` element is implicitly closed by the start
/// of a `new_tag` element.
pub fn implicitly_closes(open_tag: &str, new_tag: &str) -> (r: bool)
    ensures
        r == closes(open_tag@, new_tag@),
{
    let o = chars_of(open_tag);
    let n = chars_of(new_tag);
    closes_chars(&o, &n)
}

} // verus!
