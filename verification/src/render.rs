//! Render bookkeeping: the memory budget that admits large renders, and
//! the collection of a document's style sheets.

use vstd::prelude::*;

use crate::html::dom::{Dom, NodeData, NodeId};
use crate::html::elements::chars_are;
use crate::text::{chars_of, string_from};
use std::time::Duration;

verus! {

/// The largest canvas a render may allocate, in pixels.
pub const MAX_CANVAS_PIXELS: u64 = 3840 * 2160;

/// What one attempt to reserve memory gives.
#[derive(Debug, Clone, Copy, PartialEq, Eq, Structural)]
pub enum ReserveStep {
    /// More than the whole budget was asked for: it can never fit.
    Refused,
    /// The bytes are now reserved.
    Granted,
    /// It does not fit now; wait for a release and try again.
    MustWait,
}

/// What an attempt to reserve `bytes` gives with `used` of `limit` bytes
/// reserved.
pub open spec fn take_step(used: u64, limit: u64, bytes: u64) -> ReserveStep {
    if bytes > limit {
        ReserveStep::Refused
    } else if used + bytes <= limit {
        ReserveStep::Granted
    } else {
        ReserveStep::MustWait
    }
}

/// The bytes reserved after that attempt.
pub open spec fn take_used(used: u64, limit: u64, bytes: u64) -> u64 {
    if take_step(used, limit, bytes) == ReserveStep::Granted {
        (used + bytes) as u64
    } else {
        used
    }
}

/// A cap on the memory that renders in flight may hold: the bookkeeping
/// of reservations against a limit. Waiting for releases, up to
/// `max_wait`, is the caller's.
pub struct MemoryBudget {
    limit: u64,
    max_wait: Duration,
    used: u64,
}

impl MemoryBudget {
    pub closed spec fn spec_limit(&self) -> u64 {
        self.limit
    }

    pub closed spec fn spec_used(&self) -> u64 {
        self.used
    }

    pub closed spec fn spec_max_wait(&self) -> Duration {
        self.max_wait
    }

    /// Never more is reserved than the limit.
    pub closed spec fn wf(&self) -> bool {
        self.used <= self.limit
    }

    pub fn new(limit_bytes: u64, max_wait: Duration) -> (b: Self)
        ensures
            b.wf(),
            b.spec_limit() == limit_bytes,
            b.spec_used() == 0,
            b.spec_max_wait() == max_wait,
    {
        Self { limit: limit_bytes, max_wait, used: 0 }
    }

    /// How long a reservation may wait for room.
    pub fn max_wait(&self) -> (d: Duration)
        ensures
            d == self.spec_max_wait(),
    {
        self.max_wait
    }

    pub fn limit(&self) -> (l: u64)
        ensures
            l == self.spec_limit(),
    {
        self.limit
    }

    pub fn used(&self) -> (u: u64)
        ensures
            u == self.spec_used(),
    {
        self.used
    }

    /// One attempt to reserve `bytes`.
    pub fn try_take(&mut self, bytes: u64) -> (step: ReserveStep)
        requires
            old(self).wf(),
        ensures
            final(self).wf(),
            final(self).spec_limit() == old(self).spec_limit(),
            final(self).spec_max_wait() == old(self).spec_max_wait(),
            step == take_step(old(self).spec_used(), old(self).spec_limit(), bytes),
            final(self).spec_used() == take_used(old(self).spec_used(), old(self).spec_limit(), bytes),
    {
        if bytes > self.limit {
            return ReserveStep::Refused;
        }
        if self.used <= self.limit - bytes {
            self.used = self.used + bytes;
            ReserveStep::Granted
        } else {
            ReserveStep::MustWait
        }
    }

    /// Gives back `bytes` of an earlier reservation.
    pub fn release(&mut self, bytes: u64)
        requires
            old(self).wf(),
            bytes <= old(self).spec_used(),
        ensures
            final(self).wf(),
            final(self).spec_limit() == old(self).spec_limit(),
            final(self).spec_max_wait() == old(self).spec_max_wait(),
            final(self).spec_used() == old(self).spec_used() - bytes,
    {
        self.used = self.used - bytes;
    }
}

/// Releasing a granted reservation restores the budget as it was, and a
/// reservation is refused exactly when it is larger than the whole limit.
pub proof fn law_release_undoes_grant(used: u64, limit: u64, bytes: u64)
    requires
        used <= limit,
    ensures
        take_used(used, limit, bytes) <= limit,
        take_step(used, limit, bytes) == ReserveStep::Granted ==> take_used(used, limit, bytes)
            - bytes == used,
        take_step(used, limit, bytes) == ReserveStep::Refused <==> bytes > limit,
        take_step(used, limit, bytes) != ReserveStep::Granted ==> take_used(used, limit, bytes)
            == used,
{
}

/// The style sheet text node `i` contributes itself: the text of the first
/// child of a `<style>` element, plus a newline.
pub open spec fn own_style(dom: Dom, i: int) -> Seq<char> {
    match dom.spec_data(i) {
        NodeData::Element { tag, .. } => if tag@ == "style"@ && dom.spec_children(i).len() > 0 {
            match dom.spec_data(dom.spec_children(i)[0].spec_index()) {
                NodeData::Text(t) => t@.push('\n'),
                _ => Seq::empty(),
            }
        } else {
            Seq::empty()
        },
        _ => Seq::empty(),
    }
}

/// The style sheet text of the subtree at `i`, in document order.
pub open spec fn styles_of(dom: Dom, i: int) -> Seq<char>
    decreases dom.spec_len() - i, 1int, 0int,
{
    if 0 <= i < dom.spec_len() {
        own_style(dom, i) + styles_of_children(dom, i, 0)
    } else {
        Seq::empty()
    }
}

/// The style sheet text of the subtrees of the children of `i` from the
/// `j`-th on.
pub open spec fn styles_of_children(dom: Dom, i: int, j: int) -> Seq<char>
    decreases dom.spec_len() - i, 0int, dom.spec_children(i).len() - j,
{
    if 0 <= j < dom.spec_children(i).len() && i < dom.spec_children(i)[j].spec_index()
        < dom.spec_len() {
        styles_of(dom, dom.spec_children(i)[j].spec_index()) + styles_of_children(dom, i, j + 1)
    } else {
        Seq::empty()
    }
}

/// Appends the style sheet text of the subtree at `node` to `css`.
fn collect_styles(dom: &Dom, node: NodeId, css: &mut Vec<char>)
    requires
        dom.wf(),
        0 <= node.spec_index() < dom.spec_len(),
    ensures
        final(css)@ == old(css)@ + styles_of(*dom, node.spec_index()),
    decreases dom.spec_len() - node.spec_index(),
{
    let ghost start = css@;
    let ghost i = node.spec_index();
    proof {
        dom.lemma_children_after(i);
    }
    match dom.data(node) {
        NodeData::Element { tag, .. } => {
            let t = chars_of(tag.as_str());
            if chars_are(&t, "style") {
                match dom.first_child(node) {
                    Some(c) => {
                        match dom.text(c) {
                            Some(text) => {
                                let tc = chars_of(text);
                                let mut k: usize = 0;
                                while k < tc.len()
                                    invariant
                                        k <= tc.len(),
                                        css@ == start + tc@.take(k as int),
                                    decreases tc.len() - k,
                                {
                                    css.push(tc[k]);
                                    assert(tc@.take(k + 1) =~= tc@.take(k as int).push(tc@[k as int]));
                                    k += 1;
                                }
                                css.push('\n');
                                assert(tc@.take(tc.len() as int) =~= tc@);
                            },
                            None => {},
                        }
                    },
                    None => {},
                }
            }
        },
        _ => {},
    }
    proof {
        assert(css@ == start + own_style(*dom, i));
    }
    let ghost after_own = css@;
    let ghost kids = dom.spec_children(i);
    let mut children = dom.children(node);
    let ghost mut j: int = 0;
    proof {
        assert(kids.skip(0) =~= kids);
    }
    loop
        invariant
            dom.wf(),
            0 <= i < dom.spec_len(),
            i == node.spec_index(),
            kids == dom.spec_children(i),
            forall|x: int| 0 <= x < kids.len() ==> i < (#[trigger] kids[x]).spec_index() < dom.spec_len(),
            children.wf(),
            0 <= j <= kids.len(),
            children.remaining() == kids.skip(j),
            css@ + styles_of_children(*dom, i, j) == after_own + styles_of_children(*dom, i, 0),
        ensures
            css@ == after_own + styles_of_children(*dom, i, 0),
        decreases kids.len() - j,
    {
        let next = children.next();
        match next {
            None => {
                proof {
                    assert(kids.skip(j).len() == 0);
                    assert(j == kids.len());
                    assert(css@ + Seq::<char>::empty() =~= css@);
                }
                break;
            },
            Some(child) => {
                proof {
                    assert(kids.skip(j)[0] == kids[j]);
                    assert(kids.skip(j).drop_first() =~= kids.skip(j + 1));
                    assert(child == kids[j]);
                    assert(i < child.spec_index() < dom.spec_len());
                }
                let ghost before = css@;
                collect_styles(dom, child, css);
                proof {
                    assert(css@ + styles_of_children(*dom, i, j + 1) =~= before + styles_of_children(*dom, i, j));
                    j = j + 1;
                }
            },
        }
    }
    proof {
        assert(css@ =~= start + styles_of(*dom, i));
    }
}

/// The text of every `<style>` element's first child, each followed by a
/// newline, in document order.
pub fn extract_styles(dom: &Dom) -> (css: String)
    requires
        dom.wf(),
    ensures
        css@ == styles_of(*dom, 0),
{
    let mut cs: Vec<char> = Vec::new();
    let root = dom.root();
    collect_styles(dom, root, &mut cs);
    assert(cs@ =~= styles_of(*dom, 0));
    string_from(&cs)
}

} // verus!
