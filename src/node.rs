use vstd::prelude::*;

verus! {

broadcast use vstd::std_specs::vec::group_vec_axioms;

/// What a node is, as the parser's contracts speak of it.
pub enum NodeModel {
    Text(Seq<char>),
    Element { tag_name: Seq<char>, attrs: Seq<(Seq<char>, Seq<char>)>, children: Seq<NodeModel> },
}

/// A node of the document tree. A text node has no children.
#[derive(Debug, PartialEq, Eq)]
pub struct Node {
    pub children: Vec<Node>,
    pub node_type: NodeType,
}

#[derive(Debug, Clone, PartialEq, Eq)]
pub enum NodeType {
    Text(String),
    Element(ElementData),
}

#[derive(Debug, Clone, PartialEq, Eq)]
pub struct ElementData {
    pub tag_name: String,
    pub attrs: AttrMap,
}

/// Attributes of an element: names are unique, and entries keep the order in
/// which each name was first inserted. Two maps are equal when they hold the
/// same entries, in any order.
#[derive(Debug, Clone, Eq)]
pub struct AttrMap {
    attrs: Vec<(String, String)>,
}

/// The entries `e` after setting `name` to `value`: an entry with that name
/// takes the new value in place, otherwise the pair goes at the end.
pub open spec fn attrs_insert(e: Seq<(Seq<char>, Seq<char>)>, name: Seq<char>, value: Seq<char>) -> Seq<
    (Seq<char>, Seq<char>),
> {
    if exists|i: int| 0 <= i < e.len() && (#[trigger] e[i]).0 == name {
        let i = choose|i: int| 0 <= i < e.len() && (#[trigger] e[i]).0 == name;
        e.update(i, (name, value))
    } else {
        e.push((name, value))
    }
}

pub open spec fn keys_unique(e: Seq<(Seq<char>, Seq<char>)>) -> bool {
    forall|i: int, j: int| 0 <= i < e.len() && 0 <= j < e.len() && i != j ==> (#[trigger] e[i]).0
        != (#[trigger] e[j]).0
}

pub proof fn lemma_insert_keeps_unique(e: Seq<(Seq<char>, Seq<char>)>, name: Seq<char>, value: Seq<char>)
    requires
        keys_unique(e),
    ensures
        keys_unique(attrs_insert(e, name, value)),
{
}

/// Every entry of `a` is in `b` and every entry of `b` in `a`: for entries
/// with unique names, the same mapping from names to values.
pub open spec fn same_entries(a: Seq<(Seq<char>, Seq<char>)>, b: Seq<(Seq<char>, Seq<char>)>) -> bool {
    &&& forall|i: int| 0 <= i < a.len() ==> b.contains(#[trigger] a[i])
    &&& forall|j: int| 0 <= j < b.len() ==> a.contains(#[trigger] b[j])
}

impl PartialEq for AttrMap {
    fn eq(&self, other: &AttrMap) -> (r: bool) {
        self.holds_all(other) && other.holds_all(self)
    }
}

impl vstd::std_specs::cmp::PartialEqSpecImpl for AttrMap {
    open spec fn obeys_eq_spec() -> bool {
        true
    }

    open spec fn eq_spec(&self, other: &AttrMap) -> bool {
        same_entries(self@, other@)
    }
}

impl View for AttrMap {
    type V = Seq<(Seq<char>, Seq<char>)>;

    closed spec fn view(&self) -> Seq<(Seq<char>, Seq<char>)> {
        self.attrs@.map_values(|p: (String, String)| (p.0@, p.1@))
    }
}

impl AttrMap {
    pub closed spec fn wf(&self) -> bool {
        keys_unique(self@)
    }

    pub fn new() -> (r: AttrMap)
        ensures
            r.wf(),
            r@ == Seq::<(Seq<char>, Seq<char>)>::empty(),
    {
        let r = AttrMap { attrs: Vec::new() };
        assert(r@ =~= Seq::<(Seq<char>, Seq<char>)>::empty());
        r
    }

    pub fn len(&self) -> (r: usize)
        ensures
            r == self@.len(),
    {
        self.attrs.len()
    }

    /// Every entry of `other` is one of `self`.
    fn holds_all(&self, other: &AttrMap) -> (r: bool)
        ensures
            r == forall|j: int| 0 <= j < other@.len() ==> self@.contains(#[trigger] other@[j]),
    {
        let mut j: usize = 0;
        while j < other.attrs.len()
            invariant
                j <= other@.len(),
                other@.len() == other.attrs.len(),
                forall|jj: int| 0 <= jj < j ==> self@.contains(#[trigger] other@[jj]),
            decreases other.attrs.len() - j,
        {
            let mut i: usize = 0;
            let mut found = false;
            while i < self.attrs.len()
                invariant
                    i <= self@.len(),
                    self@.len() == self.attrs.len(),
                    j < other@.len(),
                    found ==> self@.contains(other@[j as int]),
                    !found ==> forall|ii: int| 0 <= ii < i ==> self@[ii] != other@[j as int],
                decreases self.attrs.len() - i,
            {
                if self.attrs[i].0 == other.attrs[j].0 && self.attrs[i].1 == other.attrs[j].1 {
                    assert(self@[i as int] == other@[j as int]);
                    found = true;
                }
                i += 1;
            }
            if !found {
                assert(!self@.contains(other@[j as int]));
                return false;
            }
            j += 1;
        }
        true
    }

    /// The entry at `i`: a name and its value.
    pub fn entry(&self, i: usize) -> (r: (&String, &String))
        requires
            i < self@.len(),
        ensures
            r.0@ == self@[i as int].0,
            r.1@ == self@[i as int].1,
    {
        let e = &self.attrs[i];
        (&e.0, &e.1)
    }

    /// Sets `name` to `value`, in place where `name` is already present.
    pub fn insert(&mut self, name: String, value: String)
        requires
            old(self).wf(),
        ensures
            final(self).wf(),
            final(self)@ == attrs_insert(old(self)@, name@, value@),
    {
        proof {
            lemma_insert_keeps_unique(self@, name@, value@);
        }
        let n = self.attrs.len();
        let mut i: usize = 0;
        while i < n
            invariant
                n == self.attrs.len(),
                i <= n,
                self@ == old(self)@,
                keys_unique(self@),
                forall|j: int| 0 <= j < i ==> (#[trigger] self@[j]).0 != name@,
            decreases n - i,
        {
            if self.attrs[i].0 == name {
                let ghost prev = self@;
                assert(prev[i as int].0 == name@);
                self.attrs.set(i, (name, value));
                proof {
                    let k = choose|k: int| 0 <= k < prev.len() && (#[trigger] prev[k]).0 == name@;
                    assert(k == i);
                    assert(self@ =~= prev.update(i as int, (name@, value@)));
                }
                return;
            }
            i += 1;
        }
        let ghost prev = self@;
        self.attrs.push((name, value));
        assert(self@ =~= prev.push((name@, value@)));
    }
}

impl Node {
    pub open spec fn model(&self) -> NodeModel
        decreases self,
    {
        match &self.node_type {
            NodeType::Text(t) => NodeModel::Text(t@),
            NodeType::Element(d) => NodeModel::Element {
                tag_name: d.tag_name@,
                attrs: d.attrs@,
                children: Seq::new(
                    self.children.len() as nat,
                    |i: int|
                        if 0 <= i < self.children.len() {
                            self.children[i].model()
                        } else {
                            NodeModel::Text(Seq::empty())
                        },
                ),
            },
        }
    }

    pub open spec fn wf(&self) -> bool
        decreases self,
    {
        match &self.node_type {
            NodeType::Text(_) => self.children.len() == 0,
            NodeType::Element(d) => d.attrs.wf() && forall|i: int|
                0 <= i < self.children.len() ==> (#[trigger] self.children[i]).wf(),
        }
    }
}

/// Models of a sequence of nodes.
pub open spec fn models(v: Seq<Node>) -> Seq<NodeModel> {
    v.map_values(|n: Node| n.model())
}

/// A text node holding `data`.
pub fn text(data: String) -> (r: Node)
    ensures
        r.wf(),
        r.model() == NodeModel::Text(data@),
{
    Node { children: Vec::new(), node_type: NodeType::Text(data) }
}

/// An element with the given name, attributes and children.
pub fn elem(tag_name: String, attrs: AttrMap, children: Vec<Node>) -> (r: Node)
    requires
        attrs.wf(),
        forall|i: int| 0 <= i < children.len() ==> (#[trigger] children[i]).wf(),
    ensures
        r.wf(),
        r.model() == (NodeModel::Element {
            tag_name: tag_name@,
            attrs: attrs@,
            children: models(children@),
        }),
{
    let ghost cs = children@;
    let r = Node { children, node_type: NodeType::Element(ElementData { tag_name, attrs }) };
    assert(r.model()->children =~= models(cs));
    r
}

} // verus!
