use vstd::prelude::*;

use crate::text::chars_of;

verus! {

/// A node of a `Dom`, by its position in the arena.
#[derive(Clone, Copy, Debug, PartialEq, Eq, Hash, Structural)]
pub struct NodeId(u32);

impl NodeId {
    pub closed spec fn spec_index(self) -> int {
        self.0 as int
    }

    pub closed spec fn from_index(i: int) -> NodeId {
        NodeId(i as u32)
    }

    pub fn index(self) -> (i: usize)
        ensures
            i == self.spec_index(),
    {
        self.0 as usize
    }

    /// A node id is its index: ids with one index are one id, and the id
    /// of a `u32` index has that index.
    pub proof fn lemma_index(a: NodeId, b: NodeId, i: int)
        ensures
            0 <= a.spec_index() <= u32::MAX,
            a.spec_index() == b.spec_index() ==> a == b,
            0 <= i <= u32::MAX ==> NodeId::from_index(i).spec_index() == i,
    {
    }
}

/// What a node holds.
#[derive(Debug, Clone)]
pub enum NodeData {
    Document,
    Element { tag: String, attrs: Vec<(String, String)> },
    Text(String),
}

/// A document tree: node 0 is the document, and every other node has a
/// parent that was created before it. Each link is kept in a column of
/// its own, indexed by node.
pub struct Dom {
    parent: Vec<Option<NodeId>>,
    first_child: Vec<Option<NodeId>>,
    last_child: Vec<Option<NodeId>>,
    next_sibling: Vec<Option<NodeId>>,
    prev_sibling: Vec<Option<NodeId>>,
    data: Vec<NodeData>,
    /// The children of each node, in order.
    kids: Ghost<Seq<Seq<NodeId>>>,
}

/// The child list `k` of node `i` (of `n`) agrees with the links.
pub open spec fn chain_ok(
    k: Seq<NodeId>,
    i: int,
    n: int,
    parent: Seq<Option<NodeId>>,
    first: Option<NodeId>,
    last: Option<NodeId>,
    next: Seq<Option<NodeId>>,
    prev: Seq<Option<NodeId>>,
) -> bool {
    &&& k.len() == 0 ==> first is None && last is None
    &&& k.len() > 0 ==> first == Some(k[0]) && last == Some(k.last()) && next[k.last().spec_index()] is None
        && prev[k[0].spec_index()] is None
    &&& forall|j: int|
        0 <= j < k.len() ==> i < (#[trigger] k[j]).spec_index() < n && parent[k[j].spec_index()]
            == Some(NodeId::from_index(i))
    &&& forall|a: int, b: int|
        0 <= a < b < k.len() ==> (#[trigger] k[a]).spec_index() < (#[trigger] k[b]).spec_index()
    &&& forall|j: int|
        0 <= j < k.len() - 1 ==> next[(#[trigger] k[j]).spec_index()] == Some(k[j + 1])
            && prev[k[j + 1].spec_index()] == Some(k[j])
}

/// The value of the first attribute in `attrs` named `name`.
pub open spec fn first_attr(attrs: Seq<(String, String)>, name: Seq<char>) -> Option<Seq<char>>
    decreases attrs.len(),
{
    if attrs.len() == 0 {
        None
    } else if attrs[0].0@ == name {
        Some(attrs[0].1@)
    } else {
        first_attr(attrs.drop_first(), name)
    }
}

/// Where `k` is the first attribute named `name`, its value is the first
/// one; where none is so named, there is none.
proof fn lemma_first_attr(attrs: Seq<(String, String)>, name: Seq<char>, k: int)
    requires
        0 <= k <= attrs.len(),
        forall|j: int| 0 <= j < k ==> (#[trigger] attrs[j]).0@ != name,
        k < attrs.len() ==> attrs[k].0@ == name,
    ensures
        first_attr(attrs, name) == (if k < attrs.len() {
            Some(attrs[k].1@)
        } else {
            None
        }),
    decreases k,
{
    if attrs.len() > 0 && k > 0 {
        assert(attrs[0].0@ != name);
        let rest = attrs.drop_first();
        assert forall|j: int| 0 <= j < k - 1 implies (#[trigger] rest[j]).0@ != name by {
            assert(rest[j] == attrs[j + 1]);
        }
        if k < attrs.len() {
            assert(rest[k - 1] == attrs[k]);
        }
        lemma_first_attr(rest, name, k - 1);
    }
}

impl Dom {
    pub closed spec fn spec_len(&self) -> nat {
        self.data@.len()
    }

    pub closed spec fn spec_data(&self, i: int) -> NodeData {
        self.data@[i]
    }

    pub closed spec fn spec_parent(&self, i: int) -> Option<NodeId> {
        self.parent@[i]
    }

    pub closed spec fn spec_first_child(&self, i: int) -> Option<NodeId> {
        self.first_child@[i]
    }

    pub closed spec fn spec_next_sibling(&self, i: int) -> Option<NodeId> {
        self.next_sibling@[i]
    }

    pub closed spec fn spec_prev_sibling(&self, i: int) -> Option<NodeId> {
        self.prev_sibling@[i]
    }

    /// The children of node `i`, in order.
    pub closed spec fn spec_children(&self, i: int) -> Seq<NodeId> {
        self.kids@[i]
    }

    /// The children of each node are linked in order: the first and last
    /// child links and the sibling links follow the child list, and every
    /// child names its parent. Node 0 is the document; every other node
    /// has an earlier parent.
    pub closed spec fn wf(&self) -> bool {
        let n = self.data@.len();
        &&& 1 <= n < u32::MAX
        &&& self.parent@.len() == n
        &&& self.first_child@.len() == n
        &&& self.last_child@.len() == n
        &&& self.next_sibling@.len() == n
        &&& self.prev_sibling@.len() == n
        &&& self.kids@.len() == n
        &&& self.data@[0] is Document
        &&& self.parent@[0] is None
        &&& forall|i: int|
            1 <= i < n ==> (#[trigger] self.parent@[i] matches Some(p) && 0 <= p.spec_index() < i)
        &&& forall|i: int| 0 <= i < n ==> #[trigger] chain_ok(self.kids@[i], i, n as int, self.parent@, self.first_child@[i], self.last_child@[i], self.next_sibling@, self.prev_sibling@)
        &&& forall|i: int|
            0 <= i < n ==> (#[trigger] self.prev_sibling@[i] matches Some(s) ==> 0 <= s.spec_index() < i)
    }

    /// How deep node `i` lies below the document.
    pub open spec fn depth(&self, i: int) -> nat
        decreases i,
    {
        if i <= 0 {
            0
        } else {
            match self.spec_parent(i) {
                Some(p) => if 0 <= p.spec_index() < i {
                    self.depth(p.spec_index()) + 1
                } else {
                    0
                },
                None => 0,
            }
        }
    }

    /// A tree holding only the document node.
    pub fn new() -> (d: Self)
        ensures
            d.wf(),
            d.spec_len() == 1,
            d.spec_data(0) is Document,
            d.spec_parent(0) is None,
            d.spec_children(0) == Seq::<NodeId>::empty(),
    {
        let mut parent: Vec<Option<NodeId>> = Vec::new();
        parent.push(None);
        let mut first_child: Vec<Option<NodeId>> = Vec::new();
        first_child.push(None);
        let mut last_child: Vec<Option<NodeId>> = Vec::new();
        last_child.push(None);
        let mut next_sibling: Vec<Option<NodeId>> = Vec::new();
        next_sibling.push(None);
        let mut prev_sibling: Vec<Option<NodeId>> = Vec::new();
        prev_sibling.push(None);
        let mut data: Vec<NodeData> = Vec::new();
        data.push(NodeData::Document);
        let ghost k = seq![Seq::<NodeId>::empty()];
        let d = Self { parent, first_child, last_child, next_sibling, prev_sibling, data, kids: Ghost(k) };
        assert(chain_ok(d.kids@[0], 0, 1, d.parent@, d.first_child@[0], d.last_child@[0], d.next_sibling@, d.prev_sibling@));
        d
    }

    pub fn root(&self) -> (r: NodeId)
        ensures
            r.spec_index() == 0,
            self.wf() ==> r.spec_index() < self.spec_len(),
    {
        NodeId(0)
    }

    pub fn node_count(&self) -> (n: usize)
        requires
            self.wf(),
        ensures
            n == self.spec_len(),
    {
        self.data.len()
    }

    /// Appends a new node holding `data` as the last child of `parent`.
    fn push_node(&mut self, data: NodeData, parent: NodeId) -> (id: NodeId)
        requires
            old(self).wf(),
            0 <= parent.spec_index() < old(self).spec_len(),
            old(self).spec_len() + 1 < u32::MAX,
        ensures
            final(self).wf(),
            id.spec_index() == old(self).spec_len(),
            final(self).spec_len() == old(self).spec_len() + 1,
            final(self).spec_data(id.spec_index()) == data,
            final(self).spec_parent(id.spec_index()) == Some(parent),
            final(self).spec_children(parent.spec_index()) == old(self).spec_children(
                parent.spec_index(),
            ).push(id),
            final(self).spec_children(id.spec_index()) == Seq::<NodeId>::empty(),
            forall|i: int|
                0 <= i < old(self).spec_len() && i != parent.spec_index() ==> #[trigger] final(self).spec_children(i) == old(self).spec_children(i),
            forall|i: int|
                0 <= i < old(self).spec_len() ==> #[trigger] final(self).spec_data(i) == old(self).spec_data(i),
            forall|i: int|
                0 <= i < old(self).spec_len() ==> #[trigger] final(self).spec_parent(i) == old(self).spec_parent(i),
    {
        let ghost o = *self;
        let ghost p = parent.spec_index();
        let n = self.data.len();
        let id = NodeId(n as u32);
        self.parent.push(Some(parent));
        self.first_child.push(None);
        self.last_child.push(None);
        self.next_sibling.push(None);
        self.prev_sibling.push(None);
        self.data.push(data);
        let pi = parent.0 as usize;
        let last = self.last_child[pi];
        proof {
            assert(chain_ok(o.kids@[p], p, n as int, o.parent@, o.first_child@[p], o.last_child@[p], o.next_sibling@, o.prev_sibling@));
            if o.kids@[p].len() > 0 {
                assert(o.kids@[p][o.kids@[p].len() - 1] == o.kids@[p].last());
            }
        }
        match last {
            Some(l) => {
                self.next_sibling.set(l.0 as usize, Some(id));
                self.prev_sibling.set(n, Some(l));
            },
            None => {
                self.first_child.set(pi, Some(id));
            },
        }
        self.last_child.set(pi, Some(id));
        proof {
            self.kids@ = o.kids@.push(Seq::empty()).update(p, o.kids@[p].push(id));
            assert(self.data@.drop_last() =~= o.data@);
            assert(id == NodeId::from_index(n as int));
            assert(parent == NodeId::from_index(p));
            lemma_push_chains(o, *self, p, n as int, id);
        }
        id
    }
}

impl Dom {
    pub(crate) fn append_element(&mut self, parent: NodeId, tag: String, attrs: Vec<(String, String)>) -> (id: NodeId)
        requires
            old(self).wf(),
            0 <= parent.spec_index() < old(self).spec_len(),
            old(self).spec_len() + 1 < u32::MAX,
        ensures
            final(self).wf(),
            id.spec_index() == old(self).spec_len(),
            final(self).spec_len() == old(self).spec_len() + 1,
            final(self).spec_data(id.spec_index()) == (NodeData::Element { tag, attrs }),
            final(self).spec_parent(id.spec_index()) == Some(parent),
            final(self).spec_children(parent.spec_index()) == old(self).spec_children(parent.spec_index()).push(id),
            final(self).spec_children(id.spec_index()) == Seq::<NodeId>::empty(),
            forall|i: int|
                0 <= i < old(self).spec_len() && i != parent.spec_index() ==> #[trigger] final(self).spec_children(i) == old(self).spec_children(i),
            forall|i: int|
                0 <= i < old(self).spec_len() ==> #[trigger] final(self).spec_data(i) == old(self).spec_data(i),
            forall|i: int|
                0 <= i < old(self).spec_len() ==> #[trigger] final(self).spec_parent(i) == old(self).spec_parent(i),
    {
        self.push_node(NodeData::Element { tag, attrs }, parent)
    }

    pub(crate) fn append_text(&mut self, parent: NodeId, text: String) -> (id: NodeId)
        requires
            old(self).wf(),
            0 <= parent.spec_index() < old(self).spec_len(),
            old(self).spec_len() + 1 < u32::MAX,
        ensures
            final(self).wf(),
            id.spec_index() == old(self).spec_len(),
            final(self).spec_len() == old(self).spec_len() + 1,
            final(self).spec_data(id.spec_index()) == NodeData::Text(text),
            final(self).spec_parent(id.spec_index()) == Some(parent),
            final(self).spec_children(parent.spec_index()) == old(self).spec_children(parent.spec_index()).push(id),
            final(self).spec_children(id.spec_index()) == Seq::<NodeId>::empty(),
            forall|i: int|
                0 <= i < old(self).spec_len() && i != parent.spec_index() ==> #[trigger] final(self).spec_children(i) == old(self).spec_children(i),
            forall|i: int|
                0 <= i < old(self).spec_len() ==> #[trigger] final(self).spec_data(i) == old(self).spec_data(i),
            forall|i: int|
                0 <= i < old(self).spec_len() ==> #[trigger] final(self).spec_parent(i) == old(self).spec_parent(i),
    {
        self.push_node(NodeData::Text(text), parent)
    }

    /// Replaces the children of `id` by a single text node holding `text`.
    pub fn set_text_content(&mut self, id: NodeId, text: &str)
        requires
            old(self).wf(),
            0 <= id.spec_index() < old(self).spec_len(),
            old(self).spec_len() + 1 < u32::MAX,
        ensures
            final(self).wf(),
            final(self).spec_len() == old(self).spec_len() + 1,
            final(self).spec_data(old(self).spec_len() as int) matches NodeData::Text(t) && t@ == text@,
            final(self).spec_children(id.spec_index()) == seq![NodeId::from_index(old(self).spec_len() as int)],
            forall|i: int|
                0 <= i < old(self).spec_len() && i != id.spec_index() ==> #[trigger] final(self).spec_children(i) == old(self).spec_children(i),
            forall|i: int|
                0 <= i < old(self).spec_len() ==> #[trigger] final(self).spec_data(i) == old(self).spec_data(i),
            final(self).spec_parent(old(self).spec_len() as int) == Some(id),
            forall|i: int|
                0 <= i < old(self).spec_len() ==> #[trigger] final(self).spec_parent(i) == old(self).spec_parent(i),
    {
        let ghost o = *self;
        let i = id.0 as usize;
        self.first_child.set(i, None);
        self.last_child.set(i, None);
        proof {
            let p = id.spec_index();
            self.kids@ = o.kids@.update(p, Seq::empty());
            assert forall|x: int| 0 <= x < o.data@.len() implies #[trigger] chain_ok(self.kids@[x], x, o.data@.len() as int, self.parent@, self.first_child@[x], self.last_child@[x], self.next_sibling@, self.prev_sibling@) by {
                if x != p {
                    assert(chain_ok(o.kids@[x], x, o.data@.len() as int, o.parent@, o.first_child@[x], o.last_child@[x], o.next_sibling@, o.prev_sibling@));
                }
            }
        }
        let owned = text.to_owned();
        let new_id = self.append_text(id, owned);
        proof {
            assert(new_id == NodeId::from_index(o.spec_len() as int)) by {
                assert(NodeId::from_index(new_id.spec_index()) == new_id);
            }
            assert(seq![Seq::<NodeId>::empty()][0].push(new_id) =~= seq![new_id]);
            assert(Seq::<NodeId>::empty().push(new_id) =~= seq![new_id]);
        }
    }

    pub fn data(&self, id: NodeId) -> (r: &NodeData)
        requires
            self.wf(),
            0 <= id.spec_index() < self.spec_len(),
        ensures
            *r == self.spec_data(id.spec_index()),
    {
        &self.data[id.0 as usize]
    }

    /// The tag of an element node.
    pub fn tag(&self, id: NodeId) -> (r: Option<&str>)
        requires
            self.wf(),
            0 <= id.spec_index() < self.spec_len(),
        ensures
            match self.spec_data(id.spec_index()) {
                NodeData::Element { tag, .. } => r matches Some(t) && t@ == tag@,
                _ => r is None,
            },
    {
        match &self.data[id.0 as usize] {
            NodeData::Element { tag, .. } => Some(tag.as_str()),
            _ => None,
        }
    }

    /// The attributes of an element node (none for other nodes).
    pub fn attrs(&self, id: NodeId) -> (r: &[(String, String)])
        requires
            self.wf(),
            0 <= id.spec_index() < self.spec_len(),
        ensures
            match self.spec_data(id.spec_index()) {
                NodeData::Element { attrs, .. } => r@ == attrs@,
                _ => r@.len() == 0,
            },
    {
        match &self.data[id.0 as usize] {
            NodeData::Element { attrs, .. } => attrs.as_slice(),
            _ => &[],
        }
    }

    /// The value of the first attribute of `id` named `name`.
    pub fn attr(&self, id: NodeId, name: &str) -> (r: Option<&str>)
        requires
            self.wf(),
            0 <= id.spec_index() < self.spec_len(),
        ensures
            match self.spec_data(id.spec_index()) {
                NodeData::Element { attrs, .. } => match r {
                    Some(v) => exists|k: int|
                        0 <= k < attrs.len() && (#[trigger] attrs[k]).0@ == name@ && v@ == attrs[k].1@
                            && forall|j: int| 0 <= j < k ==> (#[trigger] attrs[j]).0@ != name@,
                    None => forall|k: int| 0 <= k < attrs.len() ==> (#[trigger] attrs[k]).0@ != name@,
                },
                _ => r is None,
            },
            (match r {
                Some(v) => Some(v@),
                None => None::<Seq<char>>,
            }) == (match self.spec_data(id.spec_index()) {
                NodeData::Element { attrs, .. } => first_attr(attrs@, name@),
                _ => None,
            }),
    {
        let attrs = self.attrs(id);
        let want = chars_of(name);
        let mut k: usize = 0;
        while k < attrs.len()
            invariant
                k <= attrs.len(),
                want@ == name@,
                match self.spec_data(id.spec_index()) {
                    NodeData::Element { attrs: av, .. } => attrs@ == av@,
                    _ => attrs@.len() == 0,
                },
                forall|j: int| 0 <= j < k ==> (#[trigger] attrs@[j]).0@ != name@,
            decreases attrs.len() - k,
        {
            let key = chars_of(attrs[k].0.as_str());
            if crate::html::elements::chars_eq(&key, &want) {
                let v = attrs[k].1.as_str();
                proof {
                    assert(attrs@[k as int].0@ == name@);
                    match self.spec_data(id.spec_index()) {
                        NodeData::Element { attrs: av, .. } => {
                            assert(av@ == attrs@);
                            assert(av[k as int].0@ == name@ && v@ == av[k as int].1@);
                            assert(forall|j: int| 0 <= j < k ==> (#[trigger] av[j]).0@ != name@);
                            lemma_first_attr(av@, name@, k as int);
                        },
                        _ => {},
                    }
                }
                return Some(v);
            }
            k += 1;
        }
        proof {
            match self.spec_data(id.spec_index()) {
                NodeData::Element { attrs: av, .. } => {
                    lemma_first_attr(av@, name@, av@.len() as int);
                },
                _ => {},
            }
        }
        None
    }

    /// The text of a text node.
    pub fn text(&self, id: NodeId) -> (r: Option<&str>)
        requires
            self.wf(),
            0 <= id.spec_index() < self.spec_len(),
        ensures
            match self.spec_data(id.spec_index()) {
                NodeData::Text(t) => r matches Some(s) && s@ == t@,
                _ => r is None,
            },
    {
        match &self.data[id.0 as usize] {
            NodeData::Text(t) => Some(t.as_str()),
            _ => None,
        }
    }

    pub fn parent(&self, id: NodeId) -> (r: Option<NodeId>)
        requires
            self.wf(),
            0 <= id.spec_index() < self.spec_len(),
        ensures
            r == self.spec_parent(id.spec_index()),
    {
        self.parent[id.0 as usize]
    }

    pub fn first_child(&self, id: NodeId) -> (r: Option<NodeId>)
        requires
            self.wf(),
            0 <= id.spec_index() < self.spec_len(),
        ensures
            r == self.spec_first_child(id.spec_index()),
            r == (if self.spec_children(id.spec_index()).len() == 0 {
                None
            } else {
                Some(self.spec_children(id.spec_index())[0])
            }),
    {
        proof {
            self.lemma_chain(id.spec_index());
        }
        self.first_child[id.0 as usize]
    }

    pub fn next_sibling(&self, id: NodeId) -> (r: Option<NodeId>)
        requires
            self.wf(),
            0 <= id.spec_index() < self.spec_len(),
        ensures
            r == self.spec_next_sibling(id.spec_index()),
    {
        self.next_sibling[id.0 as usize]
    }

    pub fn prev_sibling(&self, id: NodeId) -> (r: Option<NodeId>)
        requires
            self.wf(),
            0 <= id.spec_index() < self.spec_len(),
        ensures
            r == self.spec_prev_sibling(id.spec_index()),
    {
        self.prev_sibling[id.0 as usize]
    }

    /// A node's parent, and its previous sibling, come before it.
    pub proof fn lemma_links_before(&self, i: int)
        requires
            self.wf(),
            0 <= i < self.spec_len(),
        ensures
            self.spec_parent(i) matches Some(p) ==> 0 <= p.spec_index() < i,
            self.spec_prev_sibling(i) matches Some(s) ==> 0 <= s.spec_index() < i,
    {
        if i > 0 {
            assert(self.parent@[i] matches Some(p) && 0 <= p.spec_index() < i);
        }
        assert(self.prev_sibling@[i] matches Some(s) ==> 0 <= s.spec_index() < i);
    }

    /// Every node index fits in a `u32`.
    pub proof fn lemma_len_bound(&self)
        requires
            self.wf(),
        ensures
            self.spec_len() < u32::MAX,
    {
    }

    /// A node's children come after it.
    pub proof fn lemma_children_after(&self, i: int)
        requires
            self.wf(),
            0 <= i < self.spec_len(),
        ensures
            forall|j: int|
                0 <= j < self.spec_children(i).len() ==> i < (#[trigger] self.spec_children(i)[j]).spec_index()
                    < self.spec_len(),
    {
        self.lemma_chain(i);
    }

    /// How node `i`'s children are linked: each names `i` as its parent
    /// and lies after it, they come in increasing order, the first is
    /// `first_child` and has no previous sibling, each one's next sibling
    /// is the one after it (and back again), and the last has no next
    /// sibling. Every node but the document has an earlier parent.
    pub proof fn lemma_child_links(&self, i: int)
        requires
            self.wf(),
            0 <= i < self.spec_len(),
        ensures
            ({
                let k = self.spec_children(i);
                &&& k.len() == 0 ==> self.spec_first_child(i) is None
                &&& k.len() > 0 ==> self.spec_first_child(i) == Some(k[0]) && self.spec_prev_sibling(
                    k[0].spec_index(),
                ) is None && self.spec_next_sibling(k.last().spec_index()) is None
                &&& forall|j: int|
                    0 <= j < k.len() ==> i < (#[trigger] k[j]).spec_index() < self.spec_len()
                        && self.spec_parent(k[j].spec_index()) == Some(NodeId::from_index(i))
                &&& forall|a: int, b: int|
                    0 <= a < b < k.len() ==> (#[trigger] k[a]).spec_index() < (#[trigger] k[b]).spec_index()
                &&& forall|j: int|
                    0 <= j < k.len() - 1 ==> self.spec_next_sibling((#[trigger] k[j]).spec_index())
                        == Some(k[j + 1]) && self.spec_prev_sibling(k[j + 1].spec_index()) == Some(k[j])
            }),
            i == 0 ==> self.spec_parent(i) is None,
            i > 0 ==> (self.spec_parent(i) matches Some(p) && 0 <= p.spec_index() < i),
    {
        self.lemma_chain(i);
    }

    proof fn lemma_chain(&self, i: int)
        requires
            self.wf(),
            0 <= i < self.spec_len(),
        ensures
            chain_ok(self.kids@[i], i, self.spec_len() as int, self.parent@, self.first_child@[i], self.last_child@[i], self.next_sibling@, self.prev_sibling@),
    {
    }

    /// The children of `id`, in order.
    pub fn children(&self, id: NodeId) -> (c: Children)
        requires
            self.wf(),
            0 <= id.spec_index() < self.spec_len(),
        ensures
            c.wf(),
            c.remaining() == self.spec_children(id.spec_index()),
    {
        let ghost k = self.kids@[id.spec_index()];
        let ghost n = self.spec_len() as int;
        proof {
            self.lemma_chain(id.spec_index());
        }
        let mut ids: Vec<NodeId> = Vec::new();
        let mut cur = self.first_child[id.0 as usize];
        while cur.is_some()
            invariant
                self.wf(),
                n == self.spec_len(),
                chain_ok(k, id.spec_index(), n, self.parent@, self.first_child@[id.spec_index()], self.last_child@[id.spec_index()], self.next_sibling@, self.prev_sibling@),
                ids.len() <= k.len(),
                ids@ == k.take(ids.len() as int),
                cur == (if ids.len() < k.len() { Some(k[ids.len() as int]) } else { None::<NodeId> }),
            decreases k.len() - ids.len(),
        {
            let c = cur.unwrap();
            let ghost j = ids.len() as int;
            ids.push(c);
            proof {
                assert(ids@ =~= k.take(j + 1));
                if j < k.len() - 1 {
                    assert(self.next_sibling@[k[j].spec_index()] == Some(k[j + 1]));
                } else {
                    assert(k[j] == k.last());
                }
            }
            cur = self.next_sibling[c.0 as usize];
        }
        proof {
            assert(ids@ =~= k);
        }
        let c = Children { ids, next: 0 };
        assert(c.ids@.skip(0) =~= c.ids@);
        c
    }
}

/// The children of a node, handed out one at a time.
pub struct Children {
    ids: Vec<NodeId>,
    next: usize,
}

impl Children {
    /// The children not handed out yet.
    pub closed spec fn remaining(&self) -> Seq<NodeId> {
        self.ids@.skip(self.next as int)
    }

    pub closed spec fn wf(&self) -> bool {
        self.next <= self.ids.len()
    }

    /// The next child, if any is left.
    pub fn next(&mut self) -> (r: Option<NodeId>)
        requires
            old(self).wf(),
        ensures
            final(self).wf(),
            old(self).remaining().len() == 0 ==> r is None && final(self).remaining().len() == 0,
            old(self).remaining().len() > 0 ==> r == Some(old(self).remaining()[0]) && final(self).remaining() == old(self).remaining().drop_first(),
    {
        if self.next < self.ids.len() {
            let c = self.ids[self.next];
            self.next += 1;
            assert(self.ids@.skip(self.next as int) =~= self.ids@.skip(self.next - 1).drop_first());
            Some(c)
        } else {
            assert(self.ids@.skip(self.next as int).len() == 0);
            None
        }
    }
}

/// After a node `c` is appended to `p`'s children, every child list agrees
/// with the links again.
proof fn lemma_push_chains(o: Dom, d: Dom, p: int, c: int, id: NodeId)
    requires
        o.wf(),
        0 <= p < c,
        c == o.data@.len(),
        c + 1 < u32::MAX,
        id == NodeId::from_index(c),
        id.spec_index() == c,
        d.data@.len() == c + 1,
        d.data@.drop_last() == o.data@,
        d.parent@ == o.parent@.push(Some(NodeId::from_index(p))),
        d.kids@ == o.kids@.push(Seq::empty()).update(p, o.kids@[p].push(id)),
        d.first_child@.len() == c + 1,
        d.last_child@.len() == c + 1,
        d.next_sibling@.len() == c + 1,
        d.prev_sibling@.len() == c + 1,
        forall|i: int| 0 <= i < c && i != p ==> d.first_child@[i] == o.first_child@[i],
        forall|i: int| 0 <= i < c && i != p ==> d.last_child@[i] == o.last_child@[i],
        d.first_child@[c] is None,
        d.last_child@[c] is None,
        d.last_child@[p] == Some(id),
        o.kids@[p].len() == 0 ==> d.first_child@[p] == Some(id),
        o.kids@[p].len() > 0 ==> d.first_child@[p] == o.first_child@[p],
        d.next_sibling@[c] is None,
        o.kids@[p].len() == 0 ==> d.prev_sibling@[c] is None,
        o.kids@[p].len() > 0 ==> d.prev_sibling@[c] == Some(o.kids@[p].last()),
        forall|i: int| 0 <= i < c ==> d.prev_sibling@[i] == o.prev_sibling@[i],
        forall|i: int|
            0 <= i < c && (o.kids@[p].len() == 0 || i != o.kids@[p].last().spec_index())
                ==> d.next_sibling@[i] == o.next_sibling@[i],
        o.kids@[p].len() > 0 ==> d.next_sibling@[o.kids@[p].last().spec_index()] == Some(id),
    ensures
        d.wf(),
{
    let k0 = o.kids@[p];
    assert(chain_ok(k0, p, c, o.parent@, o.first_child@[p], o.last_child@[p], o.next_sibling@, o.prev_sibling@));
    if k0.len() > 0 {
        assert(o.last_child@[p] == Some(k0.last()));
    }
    assert forall|i: int| 0 <= i < c + 1 implies #[trigger] chain_ok(d.kids@[i], i, c + 1, d.parent@, d.first_child@[i], d.last_child@[i], d.next_sibling@, d.prev_sibling@) by {
        if i == c {
            assert(d.kids@[i] == Seq::<NodeId>::empty());
        } else if i == p {
            let k = d.kids@[p];
            assert(k == k0.push(id));
            assert forall|j: int| 0 <= j < k.len() implies i < (#[trigger] k[j]).spec_index() < c + 1 && d.parent@[k[j].spec_index()] == Some(NodeId::from_index(i)) by {
                if j < k0.len() {
                    assert(k[j] == k0[j]);
                }
            }
            assert forall|j: int| 0 <= j < k.len() - 1 implies d.next_sibling@[(#[trigger] k[j]).spec_index()] == Some(k[j + 1]) && d.prev_sibling@[k[j + 1].spec_index()] == Some(k[j]) by {
                assert(k[j] == k0[j]);
                if j < k0.len() - 1 {
                    assert(k[j + 1] == k0[j + 1]);
                    assert(k0[j].spec_index() < k0.last().spec_index());
                }
            }
            assert forall|a: int, b: int| 0 <= a < b < k.len() implies (#[trigger] k[a]).spec_index() < (#[trigger] k[b]).spec_index() by {
                if b < k0.len() {
                    assert(k[a] == k0[a] && k[b] == k0[b]);
                } else {
                    assert(k[a] == k0[a]);
                }
            }
        } else {
            let k = o.kids@[i];
            assert(d.kids@[i] == k);
            assert(chain_ok(k, i, c, o.parent@, o.first_child@[i], o.last_child@[i], o.next_sibling@, o.prev_sibling@));
            assert forall|j: int| 0 <= j < k.len() implies d.next_sibling@[(#[trigger] k[j]).spec_index()] == o.next_sibling@[k[j].spec_index()] by {
                if k0.len() > 0 && k[j].spec_index() == k0.last().spec_index() {
                    assert(o.parent@[k0.last().spec_index()] == Some(NodeId::from_index(p)));
                    assert(o.parent@[k[j].spec_index()] == Some(NodeId::from_index(i)));
                    assert(NodeId::from_index(p) != NodeId::from_index(i));
                }
            }
            if k.len() > 0 {
                assert(d.next_sibling@[k.last().spec_index()] == o.next_sibling@[k.last().spec_index()]);
            }
            assert forall|j: int| 0 <= j < k.len() - 1 implies d.next_sibling@[(#[trigger] k[j]).spec_index()] == Some(k[j + 1]) && d.prev_sibling@[k[j + 1].spec_index()] == Some(k[j]) by {
                assert(d.next_sibling@[k[j].spec_index()] == o.next_sibling@[k[j].spec_index()]);
            }
        }
    }
    assert forall|i: int| 0 <= i < c + 1 implies (#[trigger] d.prev_sibling@[i] matches Some(s) ==> 0 <= s.spec_index() < i) by {
        if i < c {
            assert(d.prev_sibling@[i] == o.prev_sibling@[i]);
        } else if k0.len() > 0 {
            assert(k0.last() == k0[k0.len() - 1]);
        }
    }
    assert forall|i: int| 1 <= i < c + 1 implies (#[trigger] d.parent@[i] matches Some(q) && 0 <= q.spec_index() < i) by {
        if i < c {
            assert(d.parent@[i] == o.parent@[i]);
        }
    }
}

} // verus!
