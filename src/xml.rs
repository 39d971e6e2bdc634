//! The decoded document tree, and the state machine that builds it from the
//! chunk stream.
use vstd::prelude::*;

use crate::binaryxml::{
    chunk_kind_of, event_at, header_at, ChunkHeader, ChunkKind, EventModel, XmlAttribute, XmlEvent,
    CHUNK_HEADER_SIZE, XML_TYPE,
};
use crate::bytes::{le32, read_u32};
use crate::resource_value::{value_text, ResourceValue};
use crate::stringpool::{lookup, lookup_required, pool_spec, StringPool, NO_INDEX};
use crate::ParseError;

verus! {

/// An element: its tag, its attributes as (key, value) pairs with distinct
/// keys, and its children in document order.
pub struct ElementModel {
    pub tag: Seq<char>,
    pub attributes: Seq<(Seq<char>, Seq<char>)>,
    pub children: Seq<NodeModel>,
}

/// A node of the tree: an element or a run of text.
pub enum NodeModel {
    Element(ElementModel),
    Text(Seq<char>),
}

/// `e` with `c` appended as its last child.
pub open spec fn add_child(e: ElementModel, c: NodeModel) -> ElementModel {
    ElementModel { children: e.children.push(c), ..e }
}

/// `i` is the first position of key `k` in the pairs `s`.
pub open spec fn first_key_at(s: Seq<(Seq<char>, Seq<char>)>, k: Seq<char>, i: int) -> bool {
    &&& 0 <= i < s.len()
    &&& s[i].0 == k
    &&& forall|j: int| 0 <= j < i ==> s[j].0 != k
}

/// The value stored under `k` in the pairs `s`, if any.
pub open spec fn pairs_get(s: Seq<(Seq<char>, Seq<char>)>, k: Seq<char>) -> Option<Seq<char>> {
    if exists|i: int| first_key_at(s, k, i) {
        Some(s[choose|i: int| first_key_at(s, k, i)].1)
    } else {
        None
    }
}

/// `s` with `k` bound to `v`: the pair of `k` is overwritten in place, or a
/// new pair is appended.
pub open spec fn pairs_insert(s: Seq<(Seq<char>, Seq<char>)>, k: Seq<char>, v: Seq<char>) -> Seq<
    (Seq<char>, Seq<char>),
> {
    if exists|i: int| first_key_at(s, k, i) {
        s.update(choose|i: int| first_key_at(s, k, i), (k, v))
    } else {
        s.push((k, v))
    }
}

/// No key occurs twice in `s`.
pub open spec fn keys_distinct(s: Seq<(Seq<char>, Seq<char>)>) -> bool {
    forall|i: int, j: int| 0 <= i < j < s.len() ==> s[i].0 != s[j].0
}

/// The views of a sequence of string pairs.
pub open spec fn pairs_view(v: Seq<(String, String)>) -> Seq<(Seq<char>, Seq<char>)> {
    v.map_values(|p: (String, String)| (p.0@, p.1@))
}

/// The views of a sequence of elements.
pub open spec fn elements_view(v: Seq<Element>) -> Seq<ElementModel> {
    v.map_values(|e: Element| e@)
}

proof fn lemma_first_key_unique(s: Seq<(Seq<char>, Seq<char>)>, k: Seq<char>, i: int, j: int)
    requires
        first_key_at(s, k, i),
        first_key_at(s, k, j),
    ensures
        i == j,
{
    if i < j {
        assert(s[i].0 != k);
    } else if j < i {
        assert(s[j].0 != k);
    }
}

/// Position of the first pair of `v` whose key is `k`.
fn find_key(v: &Vec<(String, String)>, k: &String) -> (r: Option<usize>)
    ensures
        match r {
            Some(i) => first_key_at(pairs_view(v@), k@, i as int),
            None => !exists|i: int| first_key_at(pairs_view(v@), k@, i),
        },
{
    let mut i: usize = 0;
    while i < v.len()
        invariant
            i <= v.len(),
            forall|j: int| 0 <= j < i ==> pairs_view(v@)[j].0 != k@,
        decreases v.len() - i,
    {
        if v[i].0 == *k {
            return Some(i);
        }
        i = i + 1;
    }
    None
}

/// The value stored under `k` in `v`, copied.
fn get_pair(v: &Vec<(String, String)>, k: &String) -> (r: Option<String>)
    ensures
        match r {
            Some(s) => pairs_get(pairs_view(v@), k@) == Some(s@),
            None => pairs_get(pairs_view(v@), k@) is None,
        },
{
    match find_key(v, k) {
        Some(i) => {
            proof {
                let c = choose|j: int| first_key_at(pairs_view(v@), k@, j);
                lemma_first_key_unique(pairs_view(v@), k@, i as int, c);
            }
            Some(v[i].1.clone())
        },
        None => None,
    }
}

/// Binds `k` to `val` in `v`, overwriting an earlier value of `k`.
fn insert_pair(v: &mut Vec<(String, String)>, k: String, val: String)
    ensures
        pairs_view(final(v)@) == pairs_insert(pairs_view(old(v)@), k@, val@),
{
    match find_key(v, &k) {
        Some(i) => {
            proof {
                let c = choose|j: int| first_key_at(pairs_view(old(v)@), k@, j);
                lemma_first_key_unique(pairs_view(old(v)@), k@, i as int, c);
            }
            let ghost kv = k@;
            let ghost vv = val@;
            v.set(i, (k, val));
            assert(pairs_view(v@) =~= pairs_view(old(v)@).update(i as int, (kv, vv)));
        },
        None => {
            let ghost kv = k@;
            let ghost vv = val@;
            v.push((k, val));
            assert(pairs_view(v@) =~= pairs_view(old(v)@).push((kv, vv)));
        },
    }
}

/// An element of the decoded document.
pub struct Element {
    pub(crate) attributes: Vec<(String, String)>,
    pub(crate) tag: String,
    pub(crate) children: Vec<Node>,
}

/// A node of the decoded document.
pub enum Node {
    Element(Element),
    Cdata(Cdata),
}

/// A text node of the decoded document.
pub struct Cdata {
    pub(crate) data: String,
}

impl Element {
    pub closed spec fn view(self) -> ElementModel
        decreases self,
    {
        ElementModel {
            tag: self.tag@,
            attributes: pairs_view(self.attributes@),
            children: nodes_view(self.children@),
        }
    }

    /// No attribute key occurs twice.
    #[verifier::type_invariant]
    closed spec fn attribute_keys_distinct(self) -> bool {
        keys_distinct(pairs_view(self.attributes@))
    }

    /// The attributes, as (key, value) pairs with distinct keys.
    pub fn get_attributes(&self) -> (r: &Vec<(String, String)>)
        ensures
            pairs_view(r@) == self@.attributes,
            keys_distinct(self@.attributes),
    {
        proof {
            use_type_invariant(self);
        }
        &self.attributes
    }

    /// The element's tag.
    pub fn get_tag(&self) -> (r: &str)
        ensures
            r@ == self@.tag,
    {
        self.tag.as_str()
    }

    /// The child nodes, in document order.
    pub fn get_children(&self) -> (r: &Vec<Node>)
        ensures
            nodes_view(r@) == self@.children,
    {
        &self.children
    }

    /// The element with `child` appended as its last child.
    fn insert_children(self, child: Node) -> (r: Element)
        ensures
            r@ == add_child(self@, child@),
    {
        proof {
            use_type_invariant(&self);
        }
        let ghost before = self.children@;
        let Element { attributes, tag, mut children } = self;
        children.push(child);
        proof {
            assert(children@.drop_last() == before);
        }
        Element { attributes, tag, children }
    }
}

impl Node {
    pub closed spec fn view(self) -> NodeModel
        decreases self,
    {
        match self {
            Node::Element(e) => NodeModel::Element(e.view()),
            Node::Cdata(c) => NodeModel::Text(c@),
        }
    }
}

/// The views of a sequence of nodes.
pub closed spec fn nodes_view(s: Seq<Node>) -> Seq<NodeModel>
    decreases s,
{
    if s.len() == 0 {
        Seq::empty()
    } else {
        nodes_view(s.drop_last()).push(s.last().view())
    }
}

/// The view of a node is the view of what it holds.
pub(crate) proof fn lemma_node_view(n: &Node)
    ensures
        match n {
            Node::Element(e) => n@ == NodeModel::Element(e@),
            Node::Cdata(c) => n@ == NodeModel::Text(c@),
        },
{
}

/// The view of an element is made of the views of its fields.
pub(crate) proof fn lemma_element_view(e: &Element)
    ensures
        e@ == (ElementModel {
            tag: e.tag@,
            attributes: pairs_view(e.attributes@),
            children: nodes_view(e.children@),
        }),
{
}

/// The views of `s` are its nodes' views, one for one, also for each of
/// its prefixes.
pub(crate) proof fn lemma_nodes_view(s: Seq<Node>)
    ensures
        nodes_view(s).len() == s.len(),
        forall|i: int| 0 <= i < s.len() ==> #[trigger] nodes_view(s)[i] == s[i]@,
        forall|i: int|
            0 <= i <= s.len() ==> #[trigger] nodes_view(s.take(i)) == nodes_view(s).take(i),
    decreases s.len(),
{
    if s.len() > 0 {
        lemma_nodes_view(s.drop_last());
        assert forall|i: int| 0 <= i <= s.len() implies #[trigger] nodes_view(s.take(i)) == nodes_view(s).take(i) by {
            if i == s.len() {
                assert(s.take(i) =~= s);
                assert(nodes_view(s).take(i) =~= nodes_view(s));
            } else {
                assert(s.take(i) =~= s.drop_last().take(i));
                assert(nodes_view(s).take(i) =~= nodes_view(s.drop_last()).take(i));
            }
        }
    } else {
        assert(s.take(0) =~= s);
        assert(nodes_view(s).take(0) =~= nodes_view(s));
    }
}

/// The view of a text node is its text.
pub(crate) proof fn lemma_cdata_view(c: &Cdata)
    ensures
        c@ == c.data@,
{
}

impl Cdata {
    pub closed spec fn view(self) -> Seq<char> {
        self.data@
    }

    /// The text.
    pub fn get_data(&self) -> (r: &str)
        ensures
            r@ == self@,
    {
        self.data.as_str()
    }
}

/// The state of the tree builder: the declared namespaces (URI, prefix) and
/// the stack of open elements, outermost first.
pub struct TreeModel {
    pub namespaces: Seq<(Seq<char>, Seq<char>)>,
    pub stack: Seq<ElementModel>,
}

/// What one event leaves: the next state, or the finished root.
pub enum Step {
    Continue(TreeModel),
    Done(NodeModel),
}

/// The key and value that attribute `a` contributes, given the strings and
/// the declared namespaces.
pub open spec fn attribute_entry(
    pool: Seq<Seq<char>>,
    namespaces: Seq<(Seq<char>, Seq<char>)>,
    a: XmlAttribute,
) -> Result<(Seq<char>, Seq<char>), ParseError> {
    match lookup(pool, a.ns) {
        Err(x) => Err(x),
        Ok(ns) => match lookup_required(pool, a.name) {
            Err(x) => Err(x),
            Ok(name) => match value_text(a.typed_value.data_type, a.typed_value.data, pool) {
                Err(x) => Err(x),
                Ok(value) => match ns {
                    None => Ok((name, value)),
                    Some(uri) => match pairs_get(namespaces, uri) {
                        None => Err(ParseError::NamespaceNotFound(a.ns)),
                        Some(prefix) => Ok((prefix + ":"@ + name, value)),
                    },
                },
            },
        },
    }
}

/// The attribute pairs built from the first `n` attributes of `attrs`, later
/// keys overwriting earlier ones, or the first error among them.
pub open spec fn attribute_pairs(
    pool: Seq<Seq<char>>,
    namespaces: Seq<(Seq<char>, Seq<char>)>,
    attrs: Seq<XmlAttribute>,
    n: nat,
) -> Result<Seq<(Seq<char>, Seq<char>)>, ParseError>
    decreases n,
{
    if n == 0 {
        Ok(Seq::empty())
    } else {
        match attribute_pairs(pool, namespaces, attrs, (n - 1) as nat) {
            Err(x) => Err(x),
            Ok(m) => match attribute_entry(pool, namespaces, attrs[n - 1]) {
                Err(x) => Err(x),
                Ok(kv) => Ok(pairs_insert(m, kv.0, kv.1)),
            },
        }
    }
}

proof fn lemma_attribute_pairs_error_stays(
    pool: Seq<Seq<char>>,
    namespaces: Seq<(Seq<char>, Seq<char>)>,
    attrs: Seq<XmlAttribute>,
    i: nat,
    n: nat,
)
    requires
        i <= n,
        attribute_pairs(pool, namespaces, attrs, i) is Err,
    ensures
        attribute_pairs(pool, namespaces, attrs, n) == attribute_pairs(pool, namespaces, attrs, i),
    decreases n,
{
    if i < n {
        lemma_attribute_pairs_error_stays(pool, namespaces, attrs, i, (n - 1) as nat);
    }
}

/// The childless element that a start-element event opens.
pub open spec fn start_element(
    pool: Seq<Seq<char>>,
    namespaces: Seq<(Seq<char>, Seq<char>)>,
    ns: u32,
    name: u32,
    attrs: Seq<XmlAttribute>,
) -> Result<ElementModel, ParseError> {
    if ns != NO_INDEX {
        Err(ParseError::UnsupportedFeature)
    } else {
        match lookup_required(pool, name) {
            Err(x) => Err(x),
            Ok(tag) => match attribute_pairs(pool, namespaces, attrs, attrs.len()) {
                Err(x) => Err(x),
                Ok(m) => Ok(ElementModel { tag, attributes: m, children: Seq::empty() }),
            },
        }
    }
}

/// What event `ev` does to the tree builder's state `t`, given the strings.
pub open spec fn event_step(t: TreeModel, pool: Seq<Seq<char>>, ev: EventModel) -> Result<Step, ParseError> {
    match ev {
        EventModel::StartNamespace { prefix, uri } => match lookup_required(pool, uri) {
            Err(x) => Err(x),
            Ok(u) => match lookup_required(pool, prefix) {
                Err(x) => Err(x),
                Ok(pf) => Ok(Step::Continue(TreeModel { namespaces: pairs_insert(t.namespaces, u, pf), ..t })),
            },
        },
        EventModel::EndNamespace { .. } => Ok(Step::Continue(t)),
        EventModel::StartElement { ns, name, attributes } => match start_element(
            pool,
            t.namespaces,
            ns,
            name,
            attributes,
        ) {
            Err(x) => Err(x),
            Ok(e) => Ok(Step::Continue(TreeModel { stack: t.stack.push(e), ..t })),
        },
        EventModel::EndElement { .. } => {
            if t.stack.len() == 0 {
                Err(ParseError::InvalidFormat)
            } else {
                let top = t.stack.last();
                let rest = t.stack.drop_last();
                if rest.len() == 0 {
                    Ok(Step::Done(NodeModel::Element(top)))
                } else {
                    Ok(
                        Step::Continue(
                            TreeModel {
                                stack: rest.drop_last().push(add_child(rest.last(), NodeModel::Element(top))),
                                ..t
                            },
                        ),
                    )
                }
            }
        },
        EventModel::Cdata { typed_data, .. } => match value_text(typed_data.data_type, typed_data.data, pool) {
            Err(x) => Err(x),
            Ok(text) => {
                if t.stack.len() == 0 {
                    Err(ParseError::InvalidFormat)
                } else {
                    Ok(
                        Step::Continue(
                            TreeModel {
                                stack: t.stack.drop_last().push(add_child(t.stack.last(), NodeModel::Text(text))),
                                ..t
                            },
                        ),
                    )
                }
            }
        },
    }
}

/// The key and value of one attribute.
fn attribute_entry_of(pool: &StringPool, namespaces: &Vec<(String, String)>, a: &XmlAttribute) -> (r: Result<
    (String, String),
    ParseError,
>)
    ensures
        match r {
            Ok(kv) => attribute_entry(pool@, pairs_view(namespaces@), *a) == Ok::<
                (Seq<char>, Seq<char>),
                ParseError,
            >((kv.0@, kv.1@)),
            Err(x) => attribute_entry(pool@, pairs_view(namespaces@), *a) == Err::<
                (Seq<char>, Seq<char>),
                ParseError,
            >(x),
        },
{
    let ns = match pool.get(a.ns) {
        Err(x) => {
            return Err(x);
        },
        Ok(o) => o,
    };
    let name = match pool.get_required(a.name) {
        Err(x) => {
            return Err(x);
        },
        Ok(s) => s,
    };
    let value = match a.typed_value.get_value(pool) {
        Err(x) => {
            return Err(x);
        },
        Ok(s) => s,
    };
    match ns {
        None => Ok((name, value)),
        Some(uri) => match get_pair(namespaces, uri) {
            None => Err(ParseError::NamespaceNotFound(a.ns)),
            Some(prefix) => {
                let mut key = prefix;
                key.append(":");
                key.append(name.as_str());
                Ok((key, value))
            },
        },
    }
}

/// Opens the element of a start-element event: namespaced tags are
/// unsupported, and each attribute's key is `prefix:name` where it has a
/// namespace.
fn process_start_element(
    pool: &StringPool,
    namespaces: &Vec<(String, String)>,
    ns: u32,
    name: u32,
    attrs: &Vec<XmlAttribute>,
) -> (r: Result<Element, ParseError>)
    ensures
        match r {
            Ok(e) => start_element(pool@, pairs_view(namespaces@), ns, name, attrs@) == Ok::<ElementModel, ParseError>(e@),
            Err(x) => start_element(pool@, pairs_view(namespaces@), ns, name, attrs@) == Err::<ElementModel, ParseError>(x),
        },
{
    if ns != NO_INDEX {
        return Err(ParseError::UnsupportedFeature);
    }
    let tag = match pool.get_required(name) {
        Err(x) => {
            return Err(x);
        },
        Ok(s) => s,
    };
    let mut attributes: Vec<(String, String)> = Vec::new();
    let mut i: usize = 0;
    assert(pairs_view(attributes@) =~= Seq::<(Seq<char>, Seq<char>)>::empty());
    while i < attrs.len()
        invariant
            i <= attrs.len(),
            ns == NO_INDEX,
            lookup_required(pool@, name) == Ok::<Seq<char>, ParseError>(tag@),
            keys_distinct(pairs_view(attributes@)),
            attribute_pairs(pool@, pairs_view(namespaces@), attrs@, i as nat) == Ok::<
                Seq<(Seq<char>, Seq<char>)>,
                ParseError,
            >(pairs_view(attributes@)),
        decreases attrs.len() - i,
    {
        match attribute_entry_of(pool, namespaces, &attrs[i]) {
            Err(x) => {
                assert(attribute_pairs(pool@, pairs_view(namespaces@), attrs@, (i + 1) as nat) == Err::<
                    Seq<(Seq<char>, Seq<char>)>,
                    ParseError,
                >(x));
                proof {
                    lemma_attribute_pairs_error_stays(
                        pool@,
                        pairs_view(namespaces@),
                        attrs@,
                        (i + 1) as nat,
                        attrs@.len(),
                    );
                }
                return Err(x);
            },
            Ok(kv) => {
                proof {
                    lemma_pairs_insert(pairs_view(attributes@), kv.0@, kv.1@);
                }
                insert_pair(&mut attributes, kv.0, kv.1);
            },
        }
        i = i + 1;
    }
    let e = Element { attributes, tag, children: Vec::new() };
    proof {
        assert(nodes_view(e.children@) =~= Seq::<NodeModel>::empty());
    }
    Ok(e)
}

/// The tree builder: declared namespaces and the stack of open elements.
struct TreeBuilder {
    namespaces: Vec<(String, String)>,
    stack: Vec<Element>,
}

impl TreeBuilder {
    closed spec fn view(&self) -> TreeModel {
        TreeModel { namespaces: pairs_view(self.namespaces@), stack: elements_view(self.stack@) }
    }

    fn new() -> (r: TreeBuilder)
        ensures
            r@ == (TreeModel { namespaces: Seq::empty(), stack: Seq::empty() }),
    {
        let r = TreeBuilder { namespaces: Vec::new(), stack: Vec::new() };
        assert(r@.namespaces =~= Seq::<(Seq<char>, Seq<char>)>::empty());
        assert(r@.stack =~= Seq::<ElementModel>::empty());
        r
    }

    /// Records a namespace declaration, overwriting an earlier prefix of the
    /// same URI.
    fn process_start_namespace(&mut self, pool: &StringPool, prefix: u32, uri: u32) -> (r: Result<(), ParseError>)
        ensures
            match r {
                Ok(_) => event_step(old(self)@, pool@, EventModel::StartNamespace { prefix, uri })
                    == Ok::<Step, ParseError>(Step::Continue(final(self)@)),
                Err(x) => event_step(old(self)@, pool@, EventModel::StartNamespace { prefix, uri })
                    == Err::<Step, ParseError>(x),
            },
    {
        let u = match pool.get_required(uri) {
            Err(x) => {
                return Err(x);
            },
            Ok(s) => s,
        };
        let pf = match pool.get_required(prefix) {
            Err(x) => {
                return Err(x);
            },
            Ok(s) => s,
        };
        insert_pair(&mut self.namespaces, u, pf);
        Ok(())
    }

    /// Appends a text node to the innermost open element.
    fn process_cdata(&mut self, pool: &StringPool, data: u32, typed_data: ResourceValue) -> (r: Result<(), ParseError>)
        ensures
            match r {
                Ok(_) => event_step(old(self)@, pool@, EventModel::Cdata { data, typed_data })
                    == Ok::<Step, ParseError>(Step::Continue(final(self)@)),
                Err(x) => event_step(old(self)@, pool@, EventModel::Cdata { data, typed_data })
                    == Err::<Step, ParseError>(x),
            },
    {
        let text = match typed_data.get_value(pool) {
            Err(x) => {
                return Err(x);
            },
            Ok(s) => s,
        };
        let top = match self.stack.pop() {
            None => {
                return Err(ParseError::InvalidFormat);
            },
            Some(e) => e,
        };
        let ghost old_top = top@;
        let top = top.insert_children(Node::Cdata(Cdata { data: text }));
        self.stack.push(top);
        proof {
            assert(elements_view(old(self).stack@).last() == old_top);
            assert(elements_view(self.stack@) =~= elements_view(old(self).stack@).drop_last().push(
                add_child(old_top, NodeModel::Text(text@)),
            ));
        }
        Ok(())
    }

    /// Closes the innermost open element: it becomes the root when no other
    /// element is open, and else the last child of its parent.
    fn process_end_element(&mut self) -> (r: Result<Option<Node>, ParseError>)
        ensures
            forall|ns: u32, name: u32|
                match r {
                    Ok(None) => event_step(old(self)@, seq![], EventModel::EndElement { ns, name })
                        == Ok::<Step, ParseError>(Step::Continue(final(self)@)),
                    Ok(Some(n)) => event_step(old(self)@, seq![], EventModel::EndElement { ns, name })
                        == Ok::<Step, ParseError>(Step::Done(n@)),
                    Err(x) => event_step(old(self)@, seq![], EventModel::EndElement { ns, name })
                        == Err::<Step, ParseError>(x),
                },
    {
        let top = match self.stack.pop() {
            None => {
                return Err(ParseError::InvalidFormat);
            },
            Some(e) => e,
        };
        assert(elements_view(old(self).stack@).last() == top@);
        assert(elements_view(self.stack@) =~= elements_view(old(self).stack@).drop_last());
        let parent = match self.stack.pop() {
            None => {
                return Ok(Some(Node::Element(top)));
            },
            Some(e) => e,
        };
        let ghost mid = elements_view(old(self).stack@).drop_last();
        assert(mid.last() == parent@);
        assert(elements_view(self.stack@) =~= mid.drop_last());
        let ghost top_view = top@;
        let parent = parent.insert_children(Node::Element(top));
        self.stack.push(parent);
        assert(elements_view(self.stack@) =~= mid.drop_last().push(add_child(mid.last(), NodeModel::Element(top_view))));
        Ok(None)
    }

    /// Pushes the element that a start-element event opens.
    fn process_start(
        &mut self,
        pool: &StringPool,
        ns: u32,
        name: u32,
        attributes: &Vec<XmlAttribute>,
    ) -> (r: Result<(), ParseError>)
        ensures
            match r {
                Ok(_) => event_step(old(self)@, pool@, EventModel::StartElement { ns, name, attributes: attributes@ })
                    == Ok::<Step, ParseError>(Step::Continue(final(self)@)),
                Err(x) => event_step(old(self)@, pool@, EventModel::StartElement { ns, name, attributes: attributes@ })
                    == Err::<Step, ParseError>(x),
            },
    {
        let e = match process_start_element(pool, &self.namespaces, ns, name, attributes) {
            Err(x) => {
                return Err(x);
            },
            Ok(e) => e,
        };
        let ghost ev = e@;
        self.stack.push(e);
        assert(elements_view(self.stack@) =~= elements_view(old(self).stack@).push(ev));
        Ok(())
    }

    /// Applies one node event; returns the root once the outermost element
    /// closes.
    fn process_event(&mut self, pool: &StringPool, ev: &XmlEvent) -> (r: Result<Option<Node>, ParseError>)
        ensures
            match r {
                Ok(None) => event_step(old(self)@, pool@, ev@) == Ok::<Step, ParseError>(Step::Continue(final(self)@)),
                Ok(Some(n)) => event_step(old(self)@, pool@, ev@) == Ok::<Step, ParseError>(Step::Done(n@)),
                Err(x) => event_step(old(self)@, pool@, ev@) == Err::<Step, ParseError>(x),
            },
    {
        match ev {
            XmlEvent::StartNamespace { prefix, uri } => match self.process_start_namespace(pool, *prefix, *uri) {
                Ok(_) => Ok(None),
                Err(x) => Err(x),
            },
            XmlEvent::EndNamespace { .. } => Ok(None),
            XmlEvent::StartElement { ns, name, attributes } => match self.process_start(pool, *ns, *name, attributes) {
                Ok(_) => Ok(None),
                Err(x) => Err(x),
            },
            XmlEvent::EndElement { ns, name } => {
                let r = self.process_end_element();
                assert(event_step(old(self)@, pool@, ev@) == event_step(old(self)@, seq![], EventModel::EndElement { ns: *ns, name: *name }));
                r
            },
            XmlEvent::Cdata { data, typed_data } => match self.process_cdata(pool, *data, *typed_data) {
                Ok(_) => Ok(None),
                Err(x) => Err(x),
            },
        }
    }
}


/// The state of a decode: the string pool and resource map once seen, and the
/// tree builder's state.
pub struct DecodeModel {
    pub pool: Option<Seq<Seq<char>>>,
    pub resource_map: Option<Seq<u32>>,
    pub tree: TreeModel,
}

/// What one chunk leaves: the next state, or the finished root.
pub enum ChunkStep {
    Continue(DecodeModel),
    Done(NodeModel),
}

/// The resource ids of the resource map chunk `b[p..e]` whose header has
/// `hs` bytes: as many whole `u32` as follow the header.
pub open spec fn resource_ids_at(b: Seq<u8>, p: int, hs: int, e: int) -> Seq<u32> {
    Seq::new(((e - p - hs) / 4) as nat, |i: int| le32(b, p + hs + 4 * i))
}

/// The initial decode state.
pub open spec fn initial_state() -> DecodeModel {
    DecodeModel {
        pool: None,
        resource_map: None,
        tree: TreeModel { namespaces: Seq::empty(), stack: Seq::empty() },
    }
}

/// What the chunk `b[p..e]` of kind `k`, with a header of `hs` bytes, does to
/// the decode state `st`. Node events need both the string pool and the
/// resource map to have been seen.
pub open spec fn chunk_step(b: Seq<u8>, p: int, e: int, hs: int, k: ChunkKind, st: DecodeModel) -> Result<
    ChunkStep,
    ParseError,
> {
    match k {
        ChunkKind::StringPool => match pool_spec(b, p, e) {
            Err(x) => Err(x),
            Ok(s) => Ok(ChunkStep::Continue(DecodeModel { pool: Some(s), ..st })),
        },
        ChunkKind::ResourceMap => Ok(
            ChunkStep::Continue(DecodeModel { resource_map: Some(resource_ids_at(b, p, hs, e)), ..st }),
        ),
        _ => {
            if st.pool is None || st.resource_map is None {
                Err(ParseError::MissingRequiredChunk)
            } else {
                match event_at(b, p, e, k) {
                    Err(x) => Err(x),
                    Ok(ev) => match event_step(st.tree, st.pool->Some_0, ev) {
                        Err(x) => Err(x),
                        Ok(Step::Done(n)) => Ok(ChunkStep::Done(n)),
                        Ok(Step::Continue(t)) => Ok(ChunkStep::Continue(DecodeModel { tree: t, ..st })),
                    },
                }
            }
        },
    }
}

/// Decoding of the chunks in `b[pos..end]` from state `st`: the root once the
/// outermost element closes (later bytes are not read), or the first error.
pub open spec fn decode_from(b: Seq<u8>, pos: int, end: int, st: DecodeModel) -> Result<NodeModel, ParseError>
    decreases end - pos,
{
    if pos >= end {
        if st.pool is Some && st.resource_map is Some {
            Err(ParseError::IncompleteDocument)
        } else {
            Err(ParseError::MissingRequiredChunk)
        }
    } else if end - pos < CHUNK_HEADER_SIZE {
        Err(ParseError::TruncatedInput)
    } else {
        let h = header_at(b, pos);
        match chunk_kind_of(h.typ) {
            None => Err(ParseError::InvalidFormat),
            Some(k) => {
                if !h.consistent() {
                    Err(ParseError::InvalidFormat)
                } else if pos + h.size > end {
                    Err(ParseError::TruncatedInput)
                } else {
                    match chunk_step(b, pos, pos + h.size, h.header_size as int, k, st) {
                        Err(x) => Err(x),
                        Ok(ChunkStep::Done(n)) => Ok(n),
                        Ok(ChunkStep::Continue(s2)) => decode_from(b, pos + h.size, end, s2),
                    }
                }
            },
        }
    }
}

/// Decoding of a whole AXML document into its root node.
pub open spec fn decode(b: Seq<u8>) -> Result<NodeModel, ParseError> {
    if b.len() < CHUNK_HEADER_SIZE {
        Err(ParseError::TruncatedInput)
    } else {
        let h = header_at(b, 0);
        if h.typ != XML_TYPE || !h.consistent() {
            Err(ParseError::InvalidFormat)
        } else if h.size > b.len() {
            Err(ParseError::TruncatedInput)
        } else {
            decode_from(b, h.header_size as int, h.size as int, initial_state())
        }
    }
}

/// Reads the resource ids of the resource map chunk `b[p..e]`.
fn read_resource_map(b: &[u8], p: usize, hs: usize, e: usize) -> (r: Vec<u32>)
    requires
        p + hs <= e <= b.len(),
    ensures
        r@ == resource_ids_at(b@, p as int, hs as int, e as int),
{
    let n = (e - p - hs) / 4;
    let mut ids: Vec<u32> = Vec::new();
    let mut i: usize = 0;
    while i < n
        invariant
            p + hs <= e <= b.len(),
            n == (e - p - hs) / 4,
            i <= n,
            ids@ == resource_ids_at(b@, p as int, hs as int, e as int).take(i as int),
        decreases n - i,
    {
        assert(p + hs + 4 * i + 4 <= e) by (nonlinear_arith)
            requires i < n, n == (e - p - hs) / 4, p + hs <= e;
        ids.push(read_u32(b, p + hs + 4 * i));
        i = i + 1;
        assert(ids@ =~= resource_ids_at(b@, p as int, hs as int, e as int).take(i as int));
    }
    assert(ids@ =~= resource_ids_at(b@, p as int, hs as int, e as int));
    ids
}

/// The decoded document.
pub struct XmlDocument {
    root: Option<Node>,
}

/// The views of an optional string pool.
pub open spec fn pool_model(o: Option<StringPool>) -> Option<Seq<Seq<char>>> {
    match o {
        Some(s) => Some(s@),
        None => None,
    }
}

/// The views of an optional resource map.
pub open spec fn ids_model(o: Option<Vec<u32>>) -> Option<Seq<u32>> {
    match o {
        Some(v) => Some(v@),
        None => None,
    }
}

impl XmlDocument {
    pub closed spec fn view(&self) -> Option<NodeModel> {
        match self.root {
            Some(n) => Some(n@),
            None => None,
        }
    }

    /// Decodes `b` in one pass. A document whose input ends while elements
    /// are open, or before any element, is an error, never an empty result.
    pub(crate) fn new(b: &[u8]) -> (r: Result<XmlDocument, ParseError>)
        ensures
            match decode(b@) {
                Ok(m) => r is Ok && r->Ok_0@ == Some(m),
                Err(x) => r is Err && r->Err_0 == x,
            },
    {
        if b.len() < CHUNK_HEADER_SIZE {
            return Err(ParseError::TruncatedInput);
        }
        let h = ChunkHeader::read(b, 0);
        if h.typ != XML_TYPE || !((h.header_size as usize) >= CHUNK_HEADER_SIZE && h.size >= h.header_size as u32) {
            return Err(ParseError::InvalidFormat);
        }
        if h.size as usize > b.len() {
            return Err(ParseError::TruncatedInput);
        }
        let end = h.size as usize;
        let mut pos = h.header_size as usize;
        let mut pool: Option<StringPool> = None;
        let mut resource_map: Option<Vec<u32>> = None;
        let mut tree = TreeBuilder::new();
        while pos < end
            invariant
                end <= b.len(),
                pos <= end,
                decode(b@) == decode_from(
                    b@,
                    pos as int,
                    end as int,
                    DecodeModel { pool: pool_model(pool), resource_map: ids_model(resource_map), tree: tree@ },
                ),
            decreases end - pos,
        {
            let ghost st = DecodeModel { pool: pool_model(pool), resource_map: ids_model(resource_map), tree: tree@ };
            if end - pos < CHUNK_HEADER_SIZE {
                return Err(ParseError::TruncatedInput);
            }
            let h = ChunkHeader::read(b, pos);
            let k = match ChunkKind::from_tag(h.typ) {
                None => {
                    return Err(ParseError::InvalidFormat);
                },
                Some(k) => k,
            };
            if !((h.header_size as usize) >= CHUNK_HEADER_SIZE && h.size >= h.header_size as u32) {
                return Err(ParseError::InvalidFormat);
            }
            if h.size as usize > end - pos {
                return Err(ParseError::TruncatedInput);
            }
            let ce = pos + h.size as usize;
            match k {
                ChunkKind::StringPool => {
                    match StringPool::read_strings(b, pos, ce) {
                        Err(x) => {
                            return Err(x);
                        },
                        Ok(sp) => {
                            pool = Some(sp);
                        },
                    }
                },
                ChunkKind::ResourceMap => {
                    resource_map = Some(read_resource_map(b, pos, h.header_size as usize, ce));
                },
                _ => {
                    if resource_map.is_none() {
                        return Err(ParseError::MissingRequiredChunk);
                    }
                    let sp = match &pool {
                        None => {
                            return Err(ParseError::MissingRequiredChunk);
                        },
                        Some(sp) => sp,
                    };
                    let ev = match XmlEvent::read(b, pos, ce, k) {
                        Err(x) => {
                            return Err(x);
                        },
                        Ok(ev) => ev,
                    };
                    match tree.process_event(sp, &ev) {
                        Err(x) => {
                            return Err(x);
                        },
                        Ok(Some(root)) => {
                            return Ok(XmlDocument { root: Some(root) });
                        },
                        Ok(None) => {},
                    }
                },
            }
            pos = ce;
        }
        if pool.is_some() && resource_map.is_some() {
            Err(ParseError::IncompleteDocument)
        } else {
            Err(ParseError::MissingRequiredChunk)
        }
    }

    /// The root node; present in every document that decoding returns.
    pub fn get_root(&self) -> (r: &Option<Node>)
        ensures
            match r {
                Some(n) => self@ == Some(n@),
                None => self@ is None,
            },
    {
        &self.root
    }
}

proof fn lemma_first_key_exists(s: Seq<(Seq<char>, Seq<char>)>, k: Seq<char>, i: int)
    requires
        0 <= i < s.len(),
        s[i].0 == k,
    ensures
        exists|j: int| first_key_at(s, k, j),
    decreases i,
{
    if exists|j: int| 0 <= j < i && s[j].0 == k {
        let j = choose|j: int| 0 <= j < i && s[j].0 == k;
        lemma_first_key_exists(s, k, j);
    } else {
        assert(first_key_at(s, k, i));
    }
}

/// Binding a key keeps the keys distinct, and the key then maps to the value
/// last written.
pub proof fn lemma_pairs_insert(s: Seq<(Seq<char>, Seq<char>)>, k: Seq<char>, v: Seq<char>)
    requires
        keys_distinct(s),
    ensures
        keys_distinct(pairs_insert(s, k, v)),
        pairs_get(pairs_insert(s, k, v), k) == Some(v),
{
    let r = pairs_insert(s, k, v);
    if exists|i: int| first_key_at(s, k, i) {
        let c = choose|i: int| first_key_at(s, k, i);
        assert(first_key_at(r, k, c));
        let c2 = choose|i: int| first_key_at(r, k, i);
        lemma_first_key_unique(r, k, c, c2);
    } else {
        assert forall|i: int| 0 <= i < s.len() implies s[i].0 != k by {
            if s[i].0 == k {
                lemma_first_key_exists(s, k, i);
            }
        }
        assert(first_key_at(r, k, s.len() as int));
        let c2 = choose|i: int| first_key_at(r, k, i);
        lemma_first_key_unique(r, k, s.len() as int, c2);
    }
}

/// The attributes of an element never hold a key twice.
pub proof fn lemma_attribute_keys_distinct(
    pool: Seq<Seq<char>>,
    namespaces: Seq<(Seq<char>, Seq<char>)>,
    attrs: Seq<XmlAttribute>,
    n: nat,
)
    requires
        attribute_pairs(pool, namespaces, attrs, n) is Ok,
    ensures
        keys_distinct(attribute_pairs(pool, namespaces, attrs, n)->Ok_0),
    decreases n,
{
    if n > 0 {
        lemma_attribute_keys_distinct(pool, namespaces, attrs, (n - 1) as nat);
        let m = attribute_pairs(pool, namespaces, attrs, (n - 1) as nat)->Ok_0;
        let kv = attribute_entry(pool, namespaces, attrs[n - 1])->Ok_0;
        lemma_pairs_insert(m, kv.0, kv.1);
    }
}

/// An attribute's key is `prefix:name` where its namespace URI was declared
/// with `prefix`, and its bare name where it has no namespace.
pub proof fn lemma_attribute_key(
    pool: Seq<Seq<char>>,
    namespaces: Seq<(Seq<char>, Seq<char>)>,
    a: XmlAttribute,
    name: Seq<char>,
    value: Seq<char>,
)
    requires
        lookup_required(pool, a.name) == Ok::<Seq<char>, ParseError>(name),
        value_text(a.typed_value.data_type, a.typed_value.data, pool) == Ok::<Seq<char>, ParseError>(value),
    ensures
        a.ns == NO_INDEX ==> attribute_entry(pool, namespaces, a) == Ok::<(Seq<char>, Seq<char>), ParseError>(
            (name, value),
        ),
        forall|uri: Seq<char>, prefix: Seq<char>|
            lookup(pool, a.ns) == Ok::<Option<Seq<char>>, ParseError>(Some(uri)) && pairs_get(namespaces, uri)
                == Some(prefix) ==> attribute_entry(pool, namespaces, a) == Ok::<
                (Seq<char>, Seq<char>),
                ParseError,
            >((prefix + ":"@ + name, value)),
{
}

/// Applying the events `evs` in order from state `t`; once the root is
/// finished the remaining events are not applied.
pub open spec fn run_events(t: TreeModel, pool: Seq<Seq<char>>, evs: Seq<EventModel>) -> Result<Step, ParseError>
    decreases evs.len(),
{
    if evs.len() == 0 {
        Ok(Step::Continue(t))
    } else {
        match run_events(t, pool, evs.drop_last()) {
            Ok(Step::Continue(t2)) => event_step(t2, pool, evs.last()),
            other => other,
        }
    }
}

/// Number of start-element events in `evs`.
pub open spec fn count_starts(evs: Seq<EventModel>) -> nat
    decreases evs.len(),
{
    if evs.len() == 0 {
        0
    } else {
        count_starts(evs.drop_last()) + if evs.last() is StartElement {
            1nat
        } else {
            0nat
        }
    }
}

/// Number of end-element events in `evs`.
pub open spec fn count_ends(evs: Seq<EventModel>) -> nat
    decreases evs.len(),
{
    if evs.len() == 0 {
        0
    } else {
        count_ends(evs.drop_last()) + if evs.last() is EndElement {
            1nat
        } else {
            0nat
        }
    }
}

/// While no root is finished, the number of open elements is the number
/// open at the start plus the elements started less those ended.
pub proof fn lemma_open_depth(t: TreeModel, pool: Seq<Seq<char>>, evs: Seq<EventModel>, t2: TreeModel)
    requires
        run_events(t, pool, evs) == Ok::<Step, ParseError>(Step::Continue(t2)),
    ensures
        t2.stack.len() + count_ends(evs) == t.stack.len() + count_starts(evs),
    decreases evs.len(),
{
    if evs.len() > 0 {
        let prev = run_events(t, pool, evs.drop_last());
        if let Ok(Step::Continue(t1)) = prev {
            lemma_open_depth(t, pool, evs.drop_last(), t1);
        } else {
            assert(false);
        }
    }
}

/// Balanced nesting: when the event that finishes the root comes, as many
/// elements have been ended as were open at the start plus started; from
/// the initial state, the start and end events are equal in number.
pub proof fn lemma_balanced(
    t: TreeModel,
    pool: Seq<Seq<char>>,
    evs: Seq<EventModel>,
    t2: TreeModel,
    e: EventModel,
    root: NodeModel,
)
    requires
        run_events(t, pool, evs) == Ok::<Step, ParseError>(Step::Continue(t2)),
        event_step(t2, pool, e) == Ok::<Step, ParseError>(Step::Done(root)),
    ensures
        run_events(t, pool, evs.push(e)) == Ok::<Step, ParseError>(Step::Done(root)),
        t.stack.len() + count_starts(evs.push(e)) == count_ends(evs.push(e)),
        t.stack.len() == 0 ==> count_starts(evs.push(e)) == count_ends(evs.push(e)),
{
    lemma_open_depth(t, pool, evs, t2);
    assert(evs.push(e).drop_last() =~= evs);
}

/// Input that ends while elements are still open is an incomplete
/// document, never a success.
pub proof fn lemma_unclosed_is_incomplete(b: Seq<u8>, end: int, st: DecodeModel)
    requires
        st.pool is Some,
        st.resource_map is Some,
        st.tree.stack.len() > 0,
    ensures
        decode_from(b, end, end, st) == Err::<NodeModel, ParseError>(ParseError::IncompleteDocument),
{
}

proof fn lemma_decode_from_root(b: Seq<u8>, pos: int, end: int, st: DecodeModel)
    requires
        decode_from(b, pos, end, st) is Ok,
    ensures
        decode_from(b, pos, end, st)->Ok_0 is Element,
    decreases end - pos,
{
    if pos < end && end - pos >= CHUNK_HEADER_SIZE {
        let h = header_at(b, pos);
        if let Some(k) = chunk_kind_of(h.typ) {
            if h.consistent() && pos + h.size <= end {
                if let Ok(ChunkStep::Continue(s2)) = chunk_step(b, pos, pos + h.size, h.header_size as int, k, st) {
                    lemma_decode_from_root(b, pos + h.size, end, s2);
                }
            }
        }
    }
}

/// Whenever decoding succeeds, the root is present and is an element.
pub proof fn lemma_root_is_element(b: Seq<u8>)
    requires
        decode(b) is Ok,
    ensures
        decode(b)->Ok_0 is Element,
{
    let h = header_at(b, 0);
    lemma_decode_from_root(b, h.header_size as int, h.size as int, initial_state());
}

/// A buffer cut off right after a top-level header that announces more
/// bytes is truncated input.
pub proof fn lemma_cut_after_header(b: Seq<u8>)
    requires
        b.len() >= CHUNK_HEADER_SIZE,
        header_at(b, 0).typ == XML_TYPE,
        header_at(b, 0).consistent(),
        header_at(b, 0).size > CHUNK_HEADER_SIZE,
    ensures
        decode(b.take(CHUNK_HEADER_SIZE as int)) == Err::<NodeModel, ParseError>(ParseError::TruncatedInput),
{
    let c = b.take(CHUNK_HEADER_SIZE as int);
    assert(header_at(c, 0) == header_at(b, 0));
}


/// Number of element nodes in the tree of `n`.
pub open spec fn node_elements(n: NodeModel) -> nat
    decreases n,
{
    match n {
        NodeModel::Element(e) => 1 + nodes_elements(e.children),
        NodeModel::Text(_) => 0,
    }
}

/// Number of element nodes in the trees of `s`.
pub open spec fn nodes_elements(s: Seq<NodeModel>) -> nat
    decreases s,
{
    if s.len() == 0 {
        0
    } else {
        nodes_elements(s.drop_last()) + node_elements(s.last())
    }
}

/// Number of element nodes in the open elements `s` and their subtrees.
pub open spec fn stack_elements(s: Seq<ElementModel>) -> nat
    decreases s.len(),
{
    if s.len() == 0 {
        0
    } else {
        stack_elements(s.drop_last()) + node_elements(NodeModel::Element(s.last()))
    }
}

proof fn lemma_step_counts(t: TreeModel, pool: Seq<Seq<char>>, e: EventModel)
    requires
        event_step(t, pool, e) is Ok,
    ensures
        match event_step(t, pool, e) {
            Ok(Step::Continue(t2)) => {
                &&& stack_elements(t2.stack) == stack_elements(t.stack) + if e is StartElement {
                    1nat
                } else {
                    0nat
                }
                &&& (t.stack.len() > 0 || e is StartElement) ==> t2.stack.len() > 0
            },
            Ok(Step::Done(root)) => {
                &&& node_elements(root) == stack_elements(t.stack)
                &&& e is EndElement
                &&& t.stack.len() == 1
            },
            _ => true,
        },
{
    match e {
        EventModel::StartElement { .. } => {
            if let Ok(Step::Continue(t2)) = event_step(t, pool, e) {
                let x = t2.stack.last();
                assert(t2.stack.drop_last() =~= t.stack);
                assert(x.children.len() == 0);
                assert(nodes_elements(x.children) == 0);
                assert(node_elements(NodeModel::Element(x)) == 1);
                assert(stack_elements(t2.stack) == stack_elements(t.stack) + 1);
            }
        },
        EventModel::EndElement { .. } => {
            let top = t.stack.last();
            let rest = t.stack.drop_last();
            assert(stack_elements(t.stack) == stack_elements(rest) + node_elements(NodeModel::Element(top)));
            if rest.len() > 0 {
                let p = rest.last();
                let c = add_child(p, NodeModel::Element(top));
                let s2 = rest.drop_last().push(c);
                assert(s2.drop_last() =~= rest.drop_last());
                assert(s2.last() == c);
                assert(c.children.drop_last() =~= p.children);
                assert(c.children.last() == NodeModel::Element(top));
                assert(nodes_elements(c.children) == nodes_elements(p.children) + node_elements(NodeModel::Element(top)));
                assert(node_elements(NodeModel::Element(c)) == 1 + nodes_elements(c.children));
                assert(node_elements(NodeModel::Element(p)) == 1 + nodes_elements(p.children));
                assert(stack_elements(rest) == stack_elements(rest.drop_last()) + node_elements(NodeModel::Element(p)));
                assert(stack_elements(s2) == stack_elements(rest.drop_last()) + node_elements(NodeModel::Element(c)));
            } else {
                assert(stack_elements(rest) == 0);
            }
        },
        EventModel::Cdata { .. } => {
            if let Ok(Step::Continue(t2)) = event_step(t, pool, e) {
                let p = t.stack.last();
                let c = t2.stack.last();
                assert(t2.stack.drop_last() =~= t.stack.drop_last());
                assert(c.children.drop_last() =~= p.children);
                assert(node_elements(c.children.last()) == 0);
                assert(nodes_elements(c.children) == nodes_elements(p.children));
                assert(node_elements(NodeModel::Element(c)) == 1 + nodes_elements(c.children));
                assert(node_elements(NodeModel::Element(p)) == 1 + nodes_elements(p.children));
                assert(stack_elements(t.stack) == stack_elements(t.stack.drop_last()) + node_elements(NodeModel::Element(p)));
                assert(stack_elements(t2.stack) == stack_elements(t2.stack.drop_last()) + node_elements(NodeModel::Element(c)));
            }
        },
        _ => {},
    }
}

proof fn lemma_run_counts(t: TreeModel, pool: Seq<Seq<char>>, evs: Seq<EventModel>, t2: TreeModel)
    requires
        run_events(t, pool, evs) == Ok::<Step, ParseError>(Step::Continue(t2)),
    ensures
        stack_elements(t2.stack) == stack_elements(t.stack) + count_starts(evs),
        (t.stack.len() > 0 || count_starts(evs) > 0) ==> t2.stack.len() > 0,
        forall|j: int|
            0 <= j <= evs.len() ==> #[trigger] run_events(t, pool, evs.take(j)) is Ok && run_events(
                t,
                pool,
                evs.take(j),
            )->Ok_0 is Continue,
    decreases evs.len(),
{
    if evs.len() == 0 {
        assert forall|j: int| 0 <= j <= evs.len() implies #[trigger] run_events(t, pool, evs.take(j)) is Ok
            && run_events(t, pool, evs.take(j))->Ok_0 is Continue by {
            assert(evs.take(j) =~= evs);
        }
    } else {
        let prev = run_events(t, pool, evs.drop_last());
        if let Ok(Step::Continue(t1)) = prev {
            lemma_run_counts(t, pool, evs.drop_last(), t1);
            lemma_step_counts(t1, pool, evs.last());
            assert forall|j: int| 0 <= j <= evs.len() implies #[trigger] run_events(t, pool, evs.take(j)) is Ok
                && run_events(t, pool, evs.take(j))->Ok_0 is Continue by {
                if j == evs.len() {
                    assert(evs.take(j) =~= evs);
                } else {
                    assert(evs.take(j) =~= evs.drop_last().take(j));
                }
            }
        } else {
            assert(false);
        }
    }
}

/// Nesting, on every prefix: from the initial state, up to the event that
/// finishes the root, every prefix that has started an element has started
/// more elements than it ended; with that event the counts are equal, and
/// the root holds one element node for each start event.
pub proof fn lemma_nesting(pool: Seq<Seq<char>>, evs: Seq<EventModel>, k: int, root: NodeModel)
    requires
        0 <= k < evs.len(),
        run_events(TreeModel { namespaces: Seq::empty(), stack: Seq::empty() }, pool, evs.take(k)) is Ok,
        run_events(TreeModel { namespaces: Seq::empty(), stack: Seq::empty() }, pool, evs.take(k))->Ok_0 is Continue,
        run_events(TreeModel { namespaces: Seq::empty(), stack: Seq::empty() }, pool, evs.take(k + 1))
            == Ok::<Step, ParseError>(Step::Done(root)),
    ensures
        forall|j: int|
            0 <= j <= k && count_starts(#[trigger] evs.take(j)) > 0 ==> count_starts(evs.take(j)) > count_ends(
                evs.take(j),
            ),
        count_starts(evs.take(k + 1)) == count_ends(evs.take(k + 1)),
        node_elements(root) == count_starts(evs.take(k + 1)),
{
    let t0 = TreeModel { namespaces: Seq::empty(), stack: Seq::empty() };
    let tk = run_events(t0, pool, evs.take(k))->Ok_0->Continue_0;
    lemma_run_counts(t0, pool, evs.take(k), tk);
    assert(evs.take(k + 1).drop_last() =~= evs.take(k));
    assert(evs.take(k + 1).last() == evs[k]);
    lemma_step_counts(tk, pool, evs[k]);
    lemma_open_depth(t0, pool, evs.take(k), tk);
    assert forall|j: int|
        0 <= j <= k && count_starts(#[trigger] evs.take(j)) > 0 implies count_starts(evs.take(j)) > count_ends(
            evs.take(j),
        ) by {
        assert(evs.take(k).take(j) =~= evs.take(j));
        let tj = run_events(t0, pool, evs.take(j))->Ok_0->Continue_0;
        lemma_run_counts(t0, pool, evs.take(j), tj);
        lemma_open_depth(t0, pool, evs.take(j), tj);
    }
    assert(stack_elements(tk.stack) == node_elements(NodeModel::Element(tk.stack.last()))) by {
        assert(tk.stack.drop_last().len() == 0);
    }
}


/// `i` names a string of the pool.
pub open spec fn string_ok(pool: Seq<Seq<char>>, i: u32) -> bool {
    i != NO_INDEX && i < pool.len()
}

/// A value resolves: a string value names a string of the pool.
pub open spec fn value_ok(pool: Seq<Seq<char>>, v: ResourceValue) -> bool {
    v.data_type is String ==> string_ok(pool, v.data)
}

/// An attribute resolves: its name and value do, and its namespace is
/// absent or a URI declared in `namespaces`.
pub open spec fn attribute_ok(pool: Seq<Seq<char>>, namespaces: Seq<(Seq<char>, Seq<char>)>, a: XmlAttribute) -> bool {
    &&& string_ok(pool, a.name)
    &&& value_ok(pool, a.typed_value)
    &&& (a.ns == NO_INDEX || (string_ok(pool, a.ns) && pairs_get(namespaces, pool[a.ns as int]) is Some))
}

/// An event resolves against the pool and the declared namespaces, and an
/// element tag has no namespace.
pub open spec fn event_ok(pool: Seq<Seq<char>>, namespaces: Seq<(Seq<char>, Seq<char>)>, e: EventModel) -> bool {
    match e {
        EventModel::StartNamespace { prefix, uri } => string_ok(pool, prefix) && string_ok(pool, uri),
        EventModel::StartElement { ns, name, attributes } => {
            &&& ns == NO_INDEX
            &&& string_ok(pool, name)
            &&& forall|i: int| 0 <= i < attributes.len() ==> attribute_ok(pool, namespaces, #[trigger] attributes[i])
        },
        EventModel::Cdata { typed_data, .. } => value_ok(pool, typed_data),
        _ => true,
    }
}

/// The namespaces declared by the events `evs`, each URI bound to the prefix
/// declared last.
pub open spec fn namespaces_after(pool: Seq<Seq<char>>, evs: Seq<EventModel>) -> Seq<(Seq<char>, Seq<char>)>
    decreases evs.len(),
{
    if evs.len() == 0 {
        Seq::empty()
    } else {
        let before = namespaces_after(pool, evs.drop_last());
        match evs.last() {
            EventModel::StartNamespace { prefix, uri } => pairs_insert(before, pool[uri as int], pool[prefix as int]),
            _ => before,
        }
    }
}

/// A well-formed event stream: every event resolves against the pool and
/// the namespaces declared before it; text and end events come only inside
/// an open element; no end event but the last closes the outermost
/// element, and the last event does.
pub open spec fn well_formed_events(pool: Seq<Seq<char>>, evs: Seq<EventModel>) -> bool {
    &&& evs.len() > 0
    &&& evs.last() is EndElement
    &&& forall|k: int|
        0 <= k < evs.len() ==> #[trigger] event_ok(pool, namespaces_after(pool, evs.take(k)), evs[k])
    &&& forall|k: int|
        0 <= k < evs.len() && (evs[k] is EndElement || evs[k] is Cdata) ==> count_starts(#[trigger] evs.take(k))
            > count_ends(evs.take(k))
    &&& forall|k: int|
        0 <= k < evs.len() - 1 && evs[k] is EndElement ==> count_starts(#[trigger] evs.take(k)) > count_ends(
            evs.take(k),
        ) + 1
    &&& count_starts(evs) == count_ends(evs)
}

proof fn lemma_attribute_pairs_ok(
    pool: Seq<Seq<char>>,
    namespaces: Seq<(Seq<char>, Seq<char>)>,
    attrs: Seq<XmlAttribute>,
    n: nat,
)
    requires
        n <= attrs.len(),
        forall|i: int| 0 <= i < attrs.len() ==> attribute_ok(pool, namespaces, #[trigger] attrs[i]),
    ensures
        attribute_pairs(pool, namespaces, attrs, n) is Ok,
    decreases n,
{
    if n > 0 {
        lemma_attribute_pairs_ok(pool, namespaces, attrs, (n - 1) as nat);
        let a = attrs[n - 1];
        assert(attribute_ok(pool, namespaces, a));
        assert(attribute_entry(pool, namespaces, a) is Ok);
    }
}

proof fn lemma_well_formed_prefix(pool: Seq<Seq<char>>, evs: Seq<EventModel>, k: int)
    requires
        well_formed_events(pool, evs),
        0 <= k < evs.len(),
    ensures
        ({
            let t0 = TreeModel { namespaces: Seq::empty(), stack: Seq::empty() };
            let r = run_events(t0, pool, evs.take(k));
            &&& r is Ok
            &&& r->Ok_0 is Continue
            &&& r->Ok_0->Continue_0.namespaces == namespaces_after(pool, evs.take(k))
            &&& r->Ok_0->Continue_0.stack.len() + count_ends(evs.take(k)) == count_starts(evs.take(k))
        }),
    decreases k,
{
    let t0 = TreeModel { namespaces: Seq::empty(), stack: Seq::empty() };
    if k > 0 {
        lemma_well_formed_prefix(pool, evs, k - 1);
        let pre = evs.take(k - 1);
        let cur = evs.take(k);
        assert(cur.drop_last() =~= pre);
        assert(cur.last() == evs[k - 1]);
        let t1 = run_events(t0, pool, pre)->Ok_0->Continue_0;
        let e = evs[k - 1];
        assert(event_ok(pool, namespaces_after(pool, pre), e));
        if let EventModel::StartElement { ns, name, attributes } = e {
            lemma_attribute_pairs_ok(pool, t1.namespaces, attributes, attributes.len());
        }
        if e is EndElement || e is Cdata {
            assert(count_starts(pre) > count_ends(pre));
        }
        if e is EndElement {
            assert(count_starts(cur) == count_starts(pre));
            assert(count_ends(cur) == count_ends(pre) + 1);
            assert(count_starts(pre) > count_ends(pre) + 1);
        }
        lemma_step_counts(t1, pool, e);
        lemma_open_depth(t0, pool, pre, t1);
        if let Ok(Step::Continue(t2)) = event_step(t1, pool, e) {
            lemma_open_depth(t0, pool, cur, t2);
        }
    } else {
        assert(evs.take(0) =~= Seq::<EventModel>::empty());
    }
}

/// A well-formed event stream decodes: from the initial state it finishes
/// with an element root, at its last event.
pub proof fn lemma_well_formed_decodes(pool: Seq<Seq<char>>, evs: Seq<EventModel>)
    requires
        well_formed_events(pool, evs),
    ensures
        run_events(TreeModel { namespaces: Seq::empty(), stack: Seq::empty() }, pool, evs) is Ok,
        run_events(TreeModel { namespaces: Seq::empty(), stack: Seq::empty() }, pool, evs)->Ok_0 is Done,
        run_events(TreeModel { namespaces: Seq::empty(), stack: Seq::empty() }, pool, evs)->Ok_0->Done_0 is Element,
{
    let t0 = TreeModel { namespaces: Seq::empty(), stack: Seq::empty() };
    let k = evs.len() - 1;
    lemma_well_formed_prefix(pool, evs, k);
    let pre = evs.take(k);
    assert(evs.drop_last() =~= pre);
    assert(evs.take(k + 1) =~= evs);
    let e = evs[k];
    assert(event_ok(pool, namespaces_after(pool, pre), e));
    assert(count_starts(pre) > count_ends(pre));
    assert(count_starts(evs) == count_starts(pre));
    assert(count_ends(evs) == count_ends(pre) + 1);
    let t1 = run_events(t0, pool, pre)->Ok_0->Continue_0;
    assert(t1.stack.len() == 1);
}


/// The events of the chunks in `b[pos..end]`, where each of them is a node
/// chunk that decodes; `None` otherwise.
pub open spec fn node_events(b: Seq<u8>, pos: int, end: int) -> Option<Seq<EventModel>>
    decreases end - pos,
{
    if pos >= end {
        Some(Seq::empty())
    } else if end - pos < CHUNK_HEADER_SIZE {
        None
    } else {
        let h = header_at(b, pos);
        match chunk_kind_of(h.typ) {
            Some(k) => {
                if k.is_node() && h.consistent() && pos + h.size <= end {
                    match event_at(b, pos, pos + h.size, k) {
                        Ok(ev) => match node_events(b, pos + h.size, end) {
                            Some(rest) => Some(seq![ev] + rest),
                            None => None,
                        },
                        Err(_) => None,
                    }
                } else {
                    None
                }
            },
            None => None,
        }
    }
}

/// What a run of events comes to once the input ends: the finished root,
/// the first error, or an incomplete document.
pub open spec fn outcome(r: Result<Step, ParseError>) -> Result<NodeModel, ParseError> {
    match r {
        Ok(Step::Done(n)) => Ok(n),
        Ok(Step::Continue(_)) => Err(ParseError::IncompleteDocument),
        Err(x) => Err(x),
    }
}

proof fn lemma_run_cons(t: TreeModel, pool: Seq<Seq<char>>, ev: EventModel, rest: Seq<EventModel>)
    ensures
        run_events(t, pool, seq![ev] + rest) == match event_step(t, pool, ev) {
            Ok(Step::Continue(t2)) => run_events(t2, pool, rest),
            other => other,
        },
    decreases rest.len(),
{
    let s = seq![ev] + rest;
    if rest.len() == 0 {
        assert(s.drop_last() =~= Seq::<EventModel>::empty());
        assert(s.last() == ev);
        assert(run_events(t, pool, s.drop_last()) == Ok::<Step, ParseError>(Step::Continue(t)));
        assert(run_events(t, pool, s) == event_step(t, pool, ev));
        if let Ok(Step::Continue(t2)) = event_step(t, pool, ev) {
            assert(run_events(t2, pool, rest) == Ok::<Step, ParseError>(Step::Continue(t2)));
        }
    } else {
        lemma_run_cons(t, pool, ev, rest.drop_last());
        assert(s.drop_last() =~= seq![ev] + rest.drop_last());
        assert(s.last() == rest.last());
        assert(run_events(t, pool, s) == match run_events(t, pool, s.drop_last()) {
            Ok(Step::Continue(t3)) => event_step(t3, pool, s.last()),
            other => other,
        });
        if let Ok(Step::Continue(t2)) = event_step(t, pool, ev) {
            assert(run_events(t2, pool, rest) == match run_events(t2, pool, rest.drop_last()) {
                Ok(Step::Continue(t3)) => event_step(t3, pool, rest.last()),
                other => other,
            });
        }
    }
}

proof fn lemma_decode_nodes(b: Seq<u8>, pos: int, end: int, st: DecodeModel, pool: Seq<Seq<char>>, evs: Seq<EventModel>)
    requires
        st.pool == Some(pool),
        st.resource_map is Some,
        node_events(b, pos, end) == Some(evs),
    ensures
        decode_from(b, pos, end, st) == outcome(run_events(st.tree, pool, evs)),
    decreases end - pos,
{
    if pos >= end {
        assert(evs.len() == 0);
    } else {
        let h = header_at(b, pos);
        let k = chunk_kind_of(h.typ)->Some_0;
        let ev = event_at(b, pos, pos + h.size, k)->Ok_0;
        let rest = node_events(b, pos + h.size, end)->Some_0;
        assert(evs == seq![ev] + rest);
        lemma_run_cons(st.tree, pool, ev, rest);
        if let Ok(Step::Continue(t2)) = event_step(st.tree, pool, ev) {
            assert(evs.drop_first() =~= rest);
            lemma_decode_nodes(b, pos + h.size, end, DecodeModel { tree: t2, ..st }, pool, rest);
        }
    }
}

/// The byte layout of a document made of its header, a string pool that
/// decodes to `pool`, a resource map, and then node chunks only, whose
/// events are `evs`.
pub open spec fn document_layout(b: Seq<u8>, pool: Seq<Seq<char>>, evs: Seq<EventModel>) -> bool {
    let h = header_at(b, 0);
    let p1 = h.header_size as int;
    let h1 = header_at(b, p1);
    let p2 = p1 + h1.size;
    let h2 = header_at(b, p2);
    &&& b.len() >= CHUNK_HEADER_SIZE
    &&& h.typ == XML_TYPE && h.consistent() && h.size <= b.len()
    &&& p1 + CHUNK_HEADER_SIZE <= h.size
    &&& chunk_kind_of(h1.typ) == Some(ChunkKind::StringPool) && h1.consistent() && p2 <= h.size
    &&& pool_spec(b, p1, p2) == Ok::<Seq<Seq<char>>, ParseError>(pool)
    &&& p2 + CHUNK_HEADER_SIZE <= h.size
    &&& chunk_kind_of(h2.typ) == Some(ChunkKind::ResourceMap) && h2.consistent() && p2 + h2.size <= h.size
    &&& node_events(b, p2 + h2.size, h.size as int) == Some(evs)
}

/// Such a document decodes exactly as its node events run from the initial
/// state: to the root they finish, their first error, or an incomplete
/// document.
pub proof fn lemma_document_events(b: Seq<u8>, pool: Seq<Seq<char>>, evs: Seq<EventModel>)
    requires
        document_layout(b, pool, evs),
    ensures
        decode(b) == outcome(run_events(initial_state().tree, pool, evs)),
{
    let h = header_at(b, 0);
    let p1 = h.header_size as int;
    let h1 = header_at(b, p1);
    let p2 = p1 + h1.size;
    let h2 = header_at(b, p2);
    let st1 = DecodeModel { pool: Some(pool), ..initial_state() };
    let st2 = DecodeModel { resource_map: Some(resource_ids_at(b, p2, h2.header_size as int, p2 + h2.size)), ..st1 };
    assert(decode_from(b, p1, h.size as int, initial_state()) == decode_from(b, p2, h.size as int, st1));
    assert(decode_from(b, p2, h.size as int, st1) == decode_from(b, p2 + h2.size, h.size as int, st2));
    lemma_decode_nodes(b, p2 + h2.size, h.size as int, st2, pool, evs);
}

/// A document whose node events are well formed decodes to an element
/// root.
pub proof fn lemma_well_formed_document(b: Seq<u8>, pool: Seq<Seq<char>>, evs: Seq<EventModel>)
    requires
        document_layout(b, pool, evs),
        well_formed_events(pool, evs),
    ensures
        decode(b) is Ok,
        decode(b)->Ok_0 is Element,
{
    lemma_document_events(b, pool, evs);
    lemma_well_formed_decodes(pool, evs);
}

proof fn lemma_run_stops(t: TreeModel, pool: Seq<Seq<char>>, evs: Seq<EventModel>, j: int)
    requires
        0 <= j <= evs.len(),
        !(run_events(t, pool, evs.take(j)) is Ok && run_events(t, pool, evs.take(j))->Ok_0 is Continue),
    ensures
        run_events(t, pool, evs) == run_events(t, pool, evs.take(j)),
    decreases evs.len() - j,
{
    if j < evs.len() {
        let s = evs.take(j + 1);
        assert(s.drop_last() =~= evs.take(j));
        if j + 1 == evs.len() {
            assert(s =~= evs);
        } else {
            lemma_run_stops(t, pool, evs, j + 1);
        }
    } else {
        assert(evs.take(j) =~= evs);
    }
}

/// Elements left open are reported: in such a document, where no event
/// fails and every prefix that has started an element has started more than
/// it ended, decoding gives `IncompleteDocument`, never a root.
pub proof fn lemma_open_elements_incomplete(b: Seq<u8>, pool: Seq<Seq<char>>, evs: Seq<EventModel>)
    requires
        document_layout(b, pool, evs),
        run_events(initial_state().tree, pool, evs) is Ok,
        forall|j: int|
            0 <= j <= evs.len() && count_starts(#[trigger] evs.take(j)) > 0 ==> count_starts(evs.take(j)) > count_ends(
                evs.take(j),
            ),
    ensures
        decode(b) == Err::<NodeModel, ParseError>(ParseError::IncompleteDocument),
{
    let t0 = initial_state().tree;
    lemma_document_events(b, pool, evs);
    lemma_first_stop(t0, pool, evs, evs.len() as int);
    assert(evs.take(evs.len() as int) =~= evs);
}

proof fn lemma_first_stop(t0: TreeModel, pool: Seq<Seq<char>>, evs: Seq<EventModel>, n: int)
    requires
        t0 == initial_state().tree,
        0 <= n <= evs.len(),
        run_events(t0, pool, evs) is Ok,
        forall|j: int|
            0 <= j <= evs.len() && count_starts(#[trigger] evs.take(j)) > 0 ==> count_starts(evs.take(j)) > count_ends(
                evs.take(j),
            ),
    ensures
        run_events(t0, pool, evs.take(n)) is Ok && run_events(t0, pool, evs.take(n))->Ok_0 is Continue,
    decreases n,
{
    if n == 0 {
        assert(evs.take(0) =~= Seq::<EventModel>::empty());
    } else {
        lemma_first_stop(t0, pool, evs, n - 1);
        let pre = evs.take(n - 1);
        let cur = evs.take(n);
        assert(cur.drop_last() =~= pre);
        assert(cur.last() == evs[n - 1]);
        assert(evs.take(n).take(n - 1) =~= pre);
        let t1 = run_events(t0, pool, pre)->Ok_0->Continue_0;
        if !(run_events(t0, pool, cur) is Ok && run_events(t0, pool, cur)->Ok_0 is Continue) {
            lemma_run_stops(t0, pool, evs, n);
            lemma_step_counts(t1, pool, evs[n - 1]);
            lemma_open_depth(t0, pool, pre, t1);
            assert(count_starts(cur) == count_starts(pre));
            assert(count_ends(cur) == count_ends(pre) + 1);
        }
    }
}


/// An element with one string-valued attribute and nothing inside decodes
/// to that element, with the attribute's name as key and the referenced
/// string as value.
pub proof fn lemma_single_element(
    pool: Seq<Seq<char>>,
    tag: u32,
    key: u32,
    value: u32,
    attr: XmlAttribute,
    end: EventModel,
)
    requires
        string_ok(pool, tag),
        string_ok(pool, key),
        string_ok(pool, value),
        attr.ns == NO_INDEX,
        attr.name == key,
        attr.typed_value.data_type is String,
        attr.typed_value.data == value,
        end is EndElement,
    ensures
        run_events(
            initial_state().tree,
            pool,
            seq![EventModel::StartElement { ns: NO_INDEX, name: tag, attributes: seq![attr] }, end],
        ) == Ok::<Step, ParseError>(
            Step::Done(
                NodeModel::Element(
                    ElementModel {
                        tag: pool[tag as int],
                        attributes: seq![(pool[key as int], pool[value as int])],
                        children: Seq::empty(),
                    },
                ),
            ),
        ),
{
    let t0 = initial_state().tree;
    let start = EventModel::StartElement { ns: NO_INDEX, name: tag, attributes: seq![attr] };
    let evs = seq![start, end];
    assert(evs.drop_last() =~= seq![start]);
    assert(seq![start].drop_last() =~= Seq::<EventModel>::empty());
    let attrs = seq![attr];
    assert(attribute_pairs(pool, t0.namespaces, attrs, 0) == Ok::<Seq<(Seq<char>, Seq<char>)>, ParseError>(Seq::empty()));
    assert(attribute_entry(pool, t0.namespaces, attr) == Ok::<(Seq<char>, Seq<char>), ParseError>(
        (pool[key as int], pool[value as int]),
    ));
    let e: Seq<(Seq<char>, Seq<char>)> = Seq::empty();
    assert(!exists|i: int| first_key_at(e, pool[key as int], i));
    assert(e.push((pool[key as int], pool[value as int])) =~= seq![(pool[key as int], pool[value as int])]);
    assert(attribute_pairs(pool, t0.namespaces, attrs, 1) == Ok::<Seq<(Seq<char>, Seq<char>)>, ParseError>(
        seq![(pool[key as int], pool[value as int])],
    ));
    let em = ElementModel {
        tag: pool[tag as int],
        attributes: seq![(pool[key as int], pool[value as int])],
        children: Seq::empty(),
    };
    assert(start_element(pool, t0.namespaces, NO_INDEX, tag, attrs) == Ok::<ElementModel, ParseError>(em));
    let t1 = TreeModel { stack: t0.stack.push(em), ..t0 };
    assert(run_events(t0, pool, Seq::<EventModel>::empty()) == Ok::<Step, ParseError>(Step::Continue(t0)));
    assert(event_step(t0, pool, start) == Ok::<Step, ParseError>(Step::Continue(t1)));
    assert(run_events(t0, pool, seq![start]) == Ok::<Step, ParseError>(Step::Continue(t1)));
    assert(t1.stack.drop_last().len() == 0);
    assert(t1.stack.last() == em);
    assert(event_step(t1, pool, end) == Ok::<Step, ParseError>(Step::Done(NodeModel::Element(em))));
}

/// An element holding one empty element decodes to the outer element with
/// the inner one as its only child.
pub proof fn lemma_nested_pair(pool: Seq<Seq<char>>, outer: u32, inner: u32, end1: EventModel, end2: EventModel)
    requires
        string_ok(pool, outer),
        string_ok(pool, inner),
        end1 is EndElement,
        end2 is EndElement,
    ensures
        run_events(
            initial_state().tree,
            pool,
            seq![
                EventModel::StartElement { ns: NO_INDEX, name: outer, attributes: Seq::empty() },
                EventModel::StartElement { ns: NO_INDEX, name: inner, attributes: Seq::empty() },
                end1,
                end2,
            ],
        ) == Ok::<Step, ParseError>(
            Step::Done(
                NodeModel::Element(
                    ElementModel {
                        tag: pool[outer as int],
                        attributes: Seq::empty(),
                        children: seq![
                            NodeModel::Element(
                                ElementModel { tag: pool[inner as int], attributes: Seq::empty(), children: Seq::empty() },
                            ),
                        ],
                    },
                ),
            ),
        ),
{
    let s1 = EventModel::StartElement { ns: NO_INDEX, name: outer, attributes: Seq::empty() };
    let s2 = EventModel::StartElement { ns: NO_INDEX, name: inner, attributes: Seq::empty() };
    let evs = seq![s1, s2, end1, end2];
    assert(evs.drop_last() =~= seq![s1, s2, end1]);
    assert(seq![s1, s2, end1].drop_last() =~= seq![s1, s2]);
    assert(seq![s1, s2].drop_last() =~= seq![s1]);
    assert(seq![s1].drop_last() =~= Seq::<EventModel>::empty());
    let eo = ElementModel { tag: pool[outer as int], attributes: Seq::empty(), children: Seq::empty() };
    let ei = ElementModel { tag: pool[inner as int], attributes: Seq::empty(), children: Seq::empty() };
    assert(Seq::<ElementModel>::empty().push(eo).push(ei).drop_last().drop_last() =~= Seq::<ElementModel>::empty());
    assert(Seq::<ElementModel>::empty().push(eo).push(ei).drop_last() =~= seq![eo]);
    assert(Seq::<ElementModel>::empty().push(add_child(eo, NodeModel::Element(ei))) =~= seq![add_child(eo, NodeModel::Element(ei))]);
    assert(Seq::<NodeModel>::empty().push(NodeModel::Element(ei)) =~= seq![NodeModel::Element(ei)]);
    let t0 = initial_state().tree;
    let empty_attrs = Seq::<XmlAttribute>::empty();
    assert(attribute_pairs(pool, t0.namespaces, empty_attrs, 0) == Ok::<Seq<(Seq<char>, Seq<char>)>, ParseError>(
        Seq::empty(),
    ));
    let t1 = TreeModel { stack: t0.stack.push(eo), ..t0 };
    assert(run_events(t0, pool, Seq::<EventModel>::empty()) == Ok::<Step, ParseError>(Step::Continue(t0)));
    assert(start_element(pool, t0.namespaces, NO_INDEX, outer, empty_attrs) == Ok::<ElementModel, ParseError>(eo));
    assert(event_step(t0, pool, s1) == Ok::<Step, ParseError>(Step::Continue(t1)));
    assert(run_events(t0, pool, seq![s1]) == Ok::<Step, ParseError>(Step::Continue(t1)));
    assert(start_element(pool, t1.namespaces, NO_INDEX, inner, empty_attrs) == Ok::<ElementModel, ParseError>(ei));
    let t2 = TreeModel { stack: t1.stack.push(ei), ..t1 };
    assert(run_events(t0, pool, seq![s1, s2]) == Ok::<Step, ParseError>(Step::Continue(t2)));
    let done = add_child(eo, NodeModel::Element(ei));
    assert(t2.stack.last() == ei);
    assert(t2.stack.drop_last() =~= seq![eo]);
    let t3 = TreeModel { stack: seq![done], ..t2 };
    assert(event_step(t2, pool, end1) == Ok::<Step, ParseError>(Step::Continue(t3)));
    assert(run_events(t0, pool, seq![s1, s2, end1]) == Ok::<Step, ParseError>(Step::Continue(t3)));
    assert(t3.stack.drop_last().len() == 0);
    assert(event_step(t3, pool, end2) == Ok::<Step, ParseError>(Step::Done(NodeModel::Element(done))));
    assert(done.children =~= seq![NodeModel::Element(ei)]);
}

} // verus!
