//! Builds a document tree from the tokens of a text: elements with resolved names and
//! attributes, and text nodes, linked to parents and siblings.
use vstd::prelude::*;
use vstd::string::StringSliceAdditionalSpecFns;
use crate::error::{StreamError, SvgError, SvgErrorType, SvgResult};
use crate::span::{ErrorPos, QName, Span, error_pos, same_bytes};
use crate::stream::{SvgStream, name_token};
use crate::xml_token::{Attribute, ElementControl, State, Token, Tokeniser};

verus! {

/// The index of a node of a document.
#[derive(Debug, Clone, Copy, PartialEq, Eq, Structural)]
pub struct NodeId(u32);

impl NodeId {
    pub closed spec fn index(self) -> int {
        self.0 as int
    }

    /// The node at index `i`.
    pub fn new(i: u32) -> (r: NodeId)
        requires
            i < u32::MAX,
        ensures
            r.index() == i,
    {
        NodeId(i)
    }

    pub fn u32(&self) -> (r: u32)
        ensures
            r == self.index(),
    {
        self.0
    }

    pub fn usize(&self) -> (r: usize)
        ensures
            r == self.index(),
    {
        self.0 as usize
    }
}

/// A node of a document, with the document it belongs to.
#[derive(Debug, Clone, Copy)]
pub struct Node<'a> {
    pub id: NodeId,
    pub document: &'a Document<'a>,
    pub node_data: &'a NodeData<'a>,
}

/// A namespace declaration: `xmlns:prefix="uri"`, or `xmlns="uri"` without a prefix.
#[derive(Debug, Clone, Copy)]
pub struct Namespace<'a> {
    pub prefix: Option<&'a [u8]>,
    pub uri: &'a [u8],
}

/// A name whose prefix has been looked up among the namespace declarations.
#[derive(Debug, Clone, Copy)]
pub struct ResolvedQName<'a> {
    pub prefix: Span<'a>,
    pub local: Span<'a>,
    pub resolved: Option<&'a [u8]>,
}

/// An attribute of an element, with its name resolved.
#[derive(Debug, Clone, Copy)]
pub struct ResolvedAttribute<'a> {
    pub qname: ResolvedQName<'a>,
    pub value: Span<'a>,
}

#[derive(Debug)]
pub enum NodeKind<'a> {
    Root,
    /// An element; `attributes` are its indices in the attribute table of the document.
    Element { tag: ResolvedQName<'a>, attributes: core::ops::Range<u32> },
    /// Text, with character references replaced.
    Text(Vec<u8>),
}

#[derive(Debug)]
pub struct NodeData<'a> {
    /// The node above this node in the tree
    pub parent: Option<NodeId>,
    /// The sibling before this node in the tree
    pub previous_sibling: Option<NodeId>,
    /// Either the next sibling or if there isn't one, then next sibling of a parent element
    pub next_tree: Option<NodeId>,
    /// The last node that is a child of this node in the tree
    pub last_child: Option<NodeId>,
    pub kind: NodeKind<'a>,
}

/// `id` names a node of a table of `n` nodes.
pub open spec fn link_ok(id: Option<NodeId>, n: int) -> bool {
    match id {
        Some(i) => 0 <= i.index() < n,
        None => true,
    }
}

/// The links of `d` name nodes of a table of `n` nodes.
pub open spec fn node_links_ok(d: NodeData, n: int) -> bool {
    link_ok(d.parent, n) && link_ok(d.previous_sibling, n) && link_ok(d.next_tree, n) && link_ok(
        d.last_child,
        n,
    )
}

/// Whether a namespace declaration binds the prefix `p` (the empty prefix: the declaration
/// without one).
pub open spec fn binds(ns: Namespace, p: Seq<u8>) -> bool {
    if p.len() == 0 {
        ns.prefix is None
    } else {
        ns.prefix is Some && ns.prefix->0@ == p
    }
}

/// The index of the first declaration of `nss` from `i` on that binds `p`.
pub open spec fn first_binding(nss: Seq<Namespace>, p: Seq<u8>, i: int) -> Option<int>
    decreases nss.len() - i,
{
    if i < 0 || i >= nss.len() {
        None
    } else if binds(nss[i], p) {
        Some(i)
    } else {
        first_binding(nss, p, i + 1)
    }
}

/// A document tree.
#[derive(Debug)]
pub struct Document<'a> {
    text: &'a [u8],
    nodes: Vec<NodeData<'a>>,
    attributes: Vec<ResolvedAttribute<'a>>,
    pub namespaces: Vec<Namespace<'a>>,
}

impl<'a> Document<'a> {
    /// The source text.
    pub closed spec fn source(&self) -> Seq<u8> {
        self.text@
    }

    /// The nodes, the root first.
    pub closed spec fn node_table(&self) -> Seq<NodeData<'a>> {
        self.nodes@
    }

    /// The namespace declarations, in the order they were read.
    pub closed spec fn namespace_table(&self) -> Seq<Namespace<'a>> {
        self.namespaces@
    }

    /// The attributes of all elements.
    pub closed spec fn attribute_table(&self) -> Seq<ResolvedAttribute<'a>> {
        self.attributes@
    }

    /// There is a root node, every link names a node, and node indices fit in a `u32`.
    pub closed spec fn wf(&self) -> bool {
        &&& 1 <= self.nodes@.len() < u32::MAX
        &&& self.text@.len() < usize::MAX
        &&& forall|i: int|
            0 <= i < self.nodes@.len() ==> node_links_ok(
                #[trigger] self.nodes@[i],
                self.nodes@.len() as int,
            )
    }

    /// The root node.
    pub fn root(&'a self) -> (r: Node<'a>)
        requires
            self.wf(),
        ensures
            r.id.index() == 0,
            r.document == self,
            *r.node_data == self.node_table()[0],
    {
        Node { id: NodeId::new(0), document: self, node_data: &self.nodes[0] }
    }

    /// The node `id`, if there is one.
    pub fn get_node(&'a self, id: NodeId) -> (r: Option<Node<'a>>)
        ensures
            id.index() < self.node_table().len() ==> (r matches Some(n) && n.id == id && n.document
                == self && *n.node_data == self.node_table()[id.index()]),
            id.index() >= self.node_table().len() ==> r is None,
    {
        let i = id.usize();
        if i < self.nodes.len() {
            Some(Node { id, document: self, node_data: &self.nodes[i] })
        } else {
            None
        }
    }

    /// Attribute `i` of the attribute table, if there is one.
    pub fn get_attribute(&self, i: u32) -> (r: Option<&ResolvedAttribute<'a>>)
        ensures
            i < self.attribute_table().len() ==> r == Some(&self.attribute_table()[i as int]),
            i >= self.attribute_table().len() ==> r is None,
    {
        let k = i as usize;
        if k < self.attributes.len() {
            Some(&self.attributes[k])
        } else {
            None
        }
    }

    /// The line and column of byte offset `byte` of the source text, or of its end when
    /// `byte` lies beyond it.
    pub fn err_at(&self, byte: usize) -> (r: ErrorPos)
        requires
            self.source().len() < usize::MAX,
        ensures
            r == error_pos(self.source(), clamp(byte as int, self.source().len() as int)),
    {
        let n = self.text.len();
        if byte <= n {
            ErrorPos::new(self.text, byte)
        } else {
            ErrorPos::new(self.text, n)
        }
    }

    /// The line and column of byte offset `byte` of the source text.
    pub fn create_err(&self, byte: usize) -> (r: ErrorPos)
        requires
            byte <= self.source().len() < usize::MAX,
        ensures
            r == error_pos(self.source(), byte as int),
    {
        ErrorPos::new(self.text, byte)
    }
}


pub open spec fn clamp(x: int, hi: int) -> int {
    if x <= hi {
        x
    } else {
        hi
    }
}

/// At offset `p` of `t` stands `<` followed by a byte that can begin neither an end tag, a
/// processing instruction or comment, nor an element name.
pub open spec fn bad_element_start(t: Seq<u8>, p: int) -> bool {
    0 <= p && p + 1 < t.len() && t[p] == 60 && t[p + 1] != 47 && t[p + 1] != 63 && t[p + 1] != 33
        && name_token(t, p + 1, true) is None
}

/// Two spans hold the same bytes.
pub open spec fn same_text(a: Span, b: Span) -> bool {
    a.text@ == b.text@
}

/// Two resolved names are equal: same prefix, same local part, same namespace.
pub open spec fn same_qname(a: ResolvedQName, b: ResolvedQName) -> bool {
    &&& same_text(a.prefix, b.prefix)
    &&& same_text(a.local, b.local)
    &&& match (a.resolved, b.resolved) {
        (Some(x), Some(y)) => x@ == y@,
        (None, None) => true,
        _ => false,
    }
}

fn names_equal(a: &ResolvedQName, b: &ResolvedQName) -> (r: bool)
    ensures
        r == same_qname(*a, *b),
{
    if !same_bytes(a.prefix.text, b.prefix.text) || !same_bytes(a.local.text, b.local.text) {
        return false;
    }
    match (a.resolved, b.resolved) {
        (Some(x), Some(y)) => same_bytes(x, y),
        (None, None) => true,
        _ => false,
    }
}

/// The bytes of `xmlns`.
pub open spec fn xmlns() -> Seq<u8> {
    seq![120u8, 109u8, 108u8, 110u8, 115u8]
}

impl<'a> ResolvedQName<'a> {
    /// Resolves the prefix of `qname` among the namespace declarations of `document`: the
    /// first declaration that binds it gives the namespace. A name without a prefix is left
    /// unresolved when `allow_empty`, and otherwise takes the declaration without a prefix,
    /// if there is one. A prefix that nothing binds is an error.
    pub fn from_qname(qname: &QName<'a>, document: &Document<'a>, allow_empty: bool) -> (r:
        SvgResult<ResolvedQName<'a>>)
        requires
            document.source().len() < usize::MAX,
        ensures
            ({
                let p = qname.prefix.text@;
                let nss = document.namespace_table();
                let found = first_binding(nss, p, 0);
                &&& (p.len() == 0 && allow_empty) ==> (r matches Ok(q) && q.resolved is None)
                &&& !(p.len() == 0 && allow_empty) && found is Some ==> (r matches Ok(q)
                    && q.resolved == Some(nss[found->0].uri))
                &&& !(p.len() == 0 && allow_empty) && found is None && p.len() == 0 ==> (r matches Ok(
                    q,
                ) && q.resolved is None)
                &&& found is None && p.len() > 0 ==> (r matches Err(e) && e.0
                    == SvgErrorType::UnknownNamespace && e.1 is InvalidValue && e.2 == error_pos(
                    document.source(),
                    clamp(qname.prefix.start as int, document.source().len() as int),
                ))
                &&& r matches Ok(q) ==> q.prefix == qname.prefix && q.local == qname.local
            }),
    {
        let empty = qname.prefix.text.len() == 0;
        let resolved = if !empty || !allow_empty {
            let mut i: usize = 0;
            let mut found: Option<&'a [u8]> = None;
            while found.is_none() && i < document.namespaces.len()
                invariant
                    i <= document.namespaces@.len(),
                    empty == (qname.prefix.text@.len() == 0),
                    found is None ==> first_binding(document.namespaces@, qname.prefix.text@, 0)
                        == first_binding(document.namespaces@, qname.prefix.text@, i as int),
                    found matches Some(u) ==> i < document.namespaces@.len() && first_binding(
                        document.namespaces@,
                        qname.prefix.text@,
                        0,
                    ) == Some(i as int) && u == document.namespaces@[i as int].uri,
                decreases document.namespaces@.len() - i + if found is None { 1int } else { 0int },
            {
                let ns = document.namespaces[i];
                let binds = match ns.prefix {
                    Some(p) => !empty && same_bytes(p, qname.prefix.text),
                    None => empty,
                };
                if binds {
                    found = Some(ns.uri);
                } else {
                    i = i + 1;
                }
            }
            match found {
                Some(uri) => Some(uri),
                None => {
                    if empty {
                        None
                    } else {
                        return Err(
                            SvgError(
                                SvgErrorType::UnknownNamespace,
                                StreamError::InvalidValue,
                                document.err_at(qname.prefix.start),
                            ),
                        );
                    }
                },
            }
        } else {
            None
        };
        Ok(ResolvedQName { prefix: qname.prefix, local: qname.local, resolved })
    }
}


/// The namespace of the `xml` prefix.
pub const NS_XML_URI: &'static str = "http://www.w3.org/XML/1998/namespace";

/// The namespace of SVG.
pub const SVG_URI: &'static str = "http://www.w3.org/2000/svg";

/// What the parser keeps between tokens.
struct ParseData<'a> {
    /// Attributes of the tag being read, not yet resolved.
    temporary_attributes: Vec<Attribute<'a>>,
    /// Where the attributes of the tag being read begin in the attribute table.
    first_attribute_index: usize,
    /// The element whose content is being read.
    parent_id: NodeId,
    /// The name of the tag being read.
    tag_name: QName<'a>,
    /// Nodes whose `next_tree` is the next node to be appended.
    awaiting_next_tree: Vec<NodeId>,
}

/// The parse data refers to nodes and attributes of the document.
spec fn parse_ok(pd: ParseData, doc: Document) -> bool {
    &&& pd.parent_id.index() < doc.node_table().len()
    &&& pd.first_attribute_index <= doc.attribute_table().len()
    &&& forall|k: int|
        0 <= k < pd.awaiting_next_tree@.len() ==> #[trigger] pd.awaiting_next_tree@[k].index()
            < doc.node_table().len()
}

/// How many nodes and attributes the document and the parse data hold.
spec fn item_count(pd: ParseData, doc: Document) -> int {
    (doc.node_table().len() + doc.attribute_table().len() + pd.temporary_attributes@.len()) as int
}

impl<'a> Document<'a> {
    /// Appends a node of kind `kind` as the last child of `parent`; the nodes awaiting their
    /// `next_tree` get the new node.
    fn append_node(&mut self, parent: NodeId, kind: NodeKind<'a>, parse_data: &mut ParseData<'a>) -> (r:
        NodeId)
        requires
            old(self).wf(),
            parse_ok(*old(parse_data), *old(self)),
            parent.index() < old(self).node_table().len(),
            old(self).node_table().len() + 1 < u32::MAX,
        ensures
            final(self).wf(),
            final(self).source() == old(self).source(),
            final(self).attribute_table() == old(self).attribute_table(),
            final(self).namespace_table() == old(self).namespace_table(),
            final(self).node_table().len() == old(self).node_table().len() + 1,
            r.index() == old(self).node_table().len(),
            final(self).node_table()[r.index()].parent == Some(parent),
            final(self).node_table()[r.index()].previous_sibling == old(
                self,
            ).node_table()[parent.index()].last_child,
            final(self).node_table()[parent.index()].last_child == Some(r),
            final(parse_data).temporary_attributes == old(parse_data).temporary_attributes,
            final(parse_data).first_attribute_index == old(parse_data).first_attribute_index,
            final(parse_data).parent_id == old(parse_data).parent_id,
            final(parse_data).awaiting_next_tree@ == if kind is Element {
                Seq::<NodeId>::empty()
            } else {
                seq![r]
            },
            parse_ok(*final(parse_data), *final(self)),
    {
        let len = self.nodes.len();
        let new_id = NodeId::new(len as u32);
        let p = parent.usize();
        let old_last_child = self.nodes[p].last_child;
        self.nodes[p].last_child = Some(new_id);
        let mut k: usize = 0;
        while k < parse_data.awaiting_next_tree.len()
            invariant
                self.nodes@.len() == len,
                p < len,
                self.text == old(self).text,
                self.attributes == old(self).attributes,
                self.namespaces == old(self).namespaces,
                self.text@.len() < usize::MAX,
                1 <= len < u32::MAX - 1,
                new_id.index() == len,
                self.nodes@[p as int].last_child == Some(new_id),
                forall|i: int|
                    0 <= i < len ==> node_links_ok(#[trigger] self.nodes@[i], len as int + 1),
                forall|j: int|
                    0 <= j < parse_data.awaiting_next_tree@.len()
                        ==> #[trigger] parse_data.awaiting_next_tree@[j].index() < len,
                self.nodes@[p as int].parent == old(self).nodes@[p as int].parent,
                self.nodes@[p as int].previous_sibling == old(self).nodes@[p as int].previous_sibling,
            decreases parse_data.awaiting_next_tree@.len() - k,
        {
            let id = parse_data.awaiting_next_tree[k].usize();
            self.nodes[id].next_tree = Some(new_id);
            k = k + 1;
        }
        parse_data.awaiting_next_tree.clear();
        let is_element = match kind {
            NodeKind::Element { .. } => true,
            _ => false,
        };
        if !is_element {
            parse_data.awaiting_next_tree.push(new_id);
        }
        self.nodes.push(
            NodeData {
                parent: Some(parent),
                previous_sibling: old_last_child,
                next_tree: None,
                last_child: None,
                kind,
            },
        );
        new_id
    }
}


/// Records an attribute of the tag being read: a namespace declaration (`xmlns:p="uri"` or
/// `xmlns="uri"`) goes to the namespace table, any other attribute waits to be resolved.
fn process_attribute<'a>(parse_data: &mut ParseData<'a>, attribute: Attribute<'a>, document: &mut Document<'a>) -> (r: SvgResult<()>)
    ensures
        r is Ok,
        final(document).source() == old(document).source(),
        final(document).node_table() == old(document).node_table(),
        final(document).attribute_table() == old(document).attribute_table(),
        final(document).wf() == old(document).wf(),
        final(parse_data).first_attribute_index == old(parse_data).first_attribute_index,
        final(parse_data).parent_id == old(parse_data).parent_id,
        final(parse_data).tag_name == old(parse_data).tag_name,
        final(parse_data).awaiting_next_tree == old(parse_data).awaiting_next_tree,
        attribute.qname.prefix.text@ == xmlns() ==> final(document).namespace_table()
            == old(document).namespace_table().push(
            Namespace { prefix: Some(attribute.qname.local.text), uri: attribute.value.text },
        ) && final(parse_data).temporary_attributes == old(parse_data).temporary_attributes,
        attribute.qname.prefix.text@ != xmlns() && attribute.qname.local.text@ == xmlns()
            ==> final(document).namespace_table() == old(document).namespace_table().push(
            Namespace { prefix: None, uri: attribute.value.text },
        ) && final(parse_data).temporary_attributes == old(parse_data).temporary_attributes,
        attribute.qname.prefix.text@ != xmlns() && attribute.qname.local.text@ != xmlns()
            ==> final(document).namespace_table() == old(document).namespace_table()
            && final(parse_data).temporary_attributes@ == old(
            parse_data,
        ).temporary_attributes@.push(attribute),
{
    let word: [u8; 5] = [120u8, 109u8, 108u8, 110u8, 115u8];
    assert(word@ == xmlns());
    if same_bytes(attribute.qname.prefix.text, word.as_slice()) {
        document.namespaces.push(
            Namespace { prefix: Some(attribute.qname.local.text), uri: attribute.value.text },
        );
    } else if same_bytes(attribute.qname.local.text, word.as_slice()) {
        document.namespaces.push(Namespace { prefix: None, uri: attribute.value.text });
    } else {
        parse_data.temporary_attributes.push(attribute);
    }
    Ok(())
}

/// Replaces the character references of `text` (such as `&lt;`) by the bytes they stand for.
pub fn process_text(text: &[u8]) -> (r: Vec<u8>)
    requires
        text@.len() < usize::MAX,
    ensures
        !text@.contains(38u8) ==> r@ == text@,
{
    let mut stream = SvgStream::from_bytes(text);
    let mut out: Vec<u8> = Vec::new();
    // the cursor lies within the text
    let _ = stream.source_len();
    while !stream.at_end()
        invariant
            stream.text() == text@,
            0 <= stream.pos() <= text@.len(),
            !text@.contains(38u8) ==> out@ == text@.subrange(0, stream.pos()),
        decreases text@.len() - stream.pos(),
    {
        let ghost p = stream.pos();
        let mut segment = stream.consume_str_chunk();
        proof {
            if !text@.contains(38u8) {
                assert forall|i: int| p <= i < text@.len() implies (|b: u8| b != 38)(
                    #[trigger] text@[i],
                ) by {
                    if text@[i] == 38 {
                        assert(text@.contains(text@[i]));
                    }
                }
                crate::stream::lemma_run_end(text@, p, text@.len() as int, |b: u8| b != 38);
                assert(text@.subrange(0, text@.len() as int) == text@.subrange(0, p) + text@.subrange(
                    p,
                    text@.len() as int,
                ));
            }
        }
        out.append(&mut segment);
    }
    proof {
        assert(text@.subrange(0, text@.len() as int) == text@);
    }
    out
}

/// Moves the attributes of the tag being read to the attribute table, resolving their
/// names, and returns the range they take there. An attribute named twice is an error.
fn push_attributes<'a>(parse_data: &mut ParseData<'a>, document: &mut Document<'a>) -> (r: SvgResult<
    core::ops::Range<u32>,
>)
    requires
        old(document).wf(),
        parse_ok(*old(parse_data), *old(document)),
        old(document).attribute_table().len() + old(parse_data).temporary_attributes@.len()
            < u32::MAX,
    ensures
        final(document).wf(),
        final(document).source() == old(document).source(),
        final(document).node_table() == old(document).node_table(),
        final(document).namespace_table() == old(document).namespace_table(),
        final(parse_data).parent_id == old(parse_data).parent_id,
        final(parse_data).tag_name == old(parse_data).tag_name,
        final(parse_data).awaiting_next_tree == old(parse_data).awaiting_next_tree,
        parse_ok(*final(parse_data), *final(document)),
        item_count(*final(parse_data), *final(document)) <= item_count(
            *old(parse_data),
            *old(document),
        ),
        final(document).attribute_table().len() < u32::MAX,
        r matches Ok(range) ==> range.start == old(parse_data).first_attribute_index
            && range.end == final(document).attribute_table().len()
            && final(parse_data).temporary_attributes@.len() == 0
            && final(document).attribute_table().len() == old(document).attribute_table().len()
            + old(parse_data).temporary_attributes@.len(),
{
    let ghost total = document.attributes@.len() + parse_data.temporary_attributes@.len();
    while parse_data.temporary_attributes.len() > 0
        invariant
            document.wf(),
            document.text == old(document).text,
            document.nodes == old(document).nodes,
            document.namespaces == old(document).namespaces,
            parse_data.parent_id == old(parse_data).parent_id,
            parse_data.tag_name == old(parse_data).tag_name,
            parse_data.awaiting_next_tree == old(parse_data).awaiting_next_tree,
            parse_data.first_attribute_index == old(parse_data).first_attribute_index,
            parse_ok(*parse_data, *document),
            document.attributes@.len() + parse_data.temporary_attributes@.len() == total,
            total == old(document).attributes@.len() + old(parse_data).temporary_attributes@.len(),
            total < u32::MAX,
        decreases parse_data.temporary_attributes@.len(),
    {
        let attr = parse_data.temporary_attributes.pop().unwrap();
        let resolved_qname = ResolvedQName::from_qname(&attr.qname, document, true)?;
        let mut i: usize = parse_data.first_attribute_index;
        #[verifier::loop_isolation(false)]
        while i < document.attributes.len()
            invariant
                parse_data.first_attribute_index <= i <= document.attributes@.len(),
                document.text@.len() < usize::MAX,
            decreases document.attributes@.len() - i,
        {
            if names_equal(&document.attributes[i].qname, &resolved_qname) {
                return Err(
                    SvgError(
                        SvgErrorType::DuplicateAttribute,
                        StreamError::InvalidValue,
                        document.err_at(resolved_qname.local.start),
                    ),
                );
            }
            i = i + 1;
        }
        document.attributes.push(ResolvedAttribute { qname: resolved_qname, value: attr.value });
    }
    let result = (parse_data.first_attribute_index as u32)..(document.attributes.len() as u32);
    parse_data.first_attribute_index = document.attributes.len();
    Ok(result)
}


/// Handles the end of a tag: `>` opens an element, `/>` adds an empty one, `</name>` closes
/// the element being read, which must bear the same name.
fn process_element_control<'a>(control: ElementControl<'a>, document: &mut Document<'a>, parse_data: &mut ParseData<'a>) -> (r: SvgResult<()>)
    requires
        old(document).wf(),
        parse_ok(*old(parse_data), *old(document)),
        item_count(*old(parse_data), *old(document)) + 1 < u32::MAX,
    ensures
        final(document).wf(),
        final(document).source() == old(document).source(),
        parse_ok(*final(parse_data), *final(document)),
        item_count(*final(parse_data), *final(document)) <= item_count(
            *old(parse_data),
            *old(document),
        ) + 1,
{
    let attributes = push_attributes(parse_data, document)?;
    match control {
        ElementControl::EmptyTag => {
            let resolved_qname = ResolvedQName::from_qname(&parse_data.tag_name, document, false)?;
            let new_node = document.append_node(
                parse_data.parent_id,
                NodeKind::Element { tag: resolved_qname, attributes },
                parse_data,
            );
            parse_data.awaiting_next_tree.push(new_node);
        },
        ElementControl::Close(qname) => {
            let parent = parse_data.parent_id.usize();
            match &document.nodes[parent].kind {
                NodeKind::Element { tag, .. } => {
                    if tag.prefix != qname.prefix || tag.local != qname.local {
                        return Err(
                            SvgError(
                                SvgErrorType::InvalidCloseElement,
                                StreamError::InvalidValue,
                                document.err_at(qname.local.start),
                            ),
                        );
                    }
                    parse_data.awaiting_next_tree.push(parse_data.parent_id);
                },
                _ => {},
            }
            match document.nodes[parent].parent {
                Some(id) => {
                    parse_data.parent_id = id;
                },
                None => {
                    // closing a tag at the top of the document
                    return Err(
                        SvgError(
                            SvgErrorType::InvalidCloseElement,
                            StreamError::InvalidValue,
                            document.err_at(qname.local.start),
                        ),
                    );
                },
            }
        },
        ElementControl::Open => {
            let resolved_qname = ResolvedQName::from_qname(&parse_data.tag_name, document, false)?;
            let new_node = document.append_node(
                parse_data.parent_id,
                NodeKind::Element { tag: resolved_qname, attributes },
                parse_data,
            );
            parse_data.parent_id = new_node;
        },
    }
    Ok(())
}

/// Reads all tokens of `tokeniser` into `document`.
fn parse_tokens<'a>(tokeniser: &mut Tokeniser<'a>, parse_data: &mut ParseData<'a>, document: &mut Document<'a>) -> (r: SvgResult<()>)
    requires
        old(tokeniser).wf(),
        old(tokeniser).text() == old(document).source(),
        old(document).wf(),
        parse_ok(*old(parse_data), *old(document)),
        item_count(*old(parse_data), *old(document)) <= old(tokeniser).pos() + 1,
        old(document).source().len() + 3 < u32::MAX,
    ensures
        final(document).wf(),
        final(document).source() == old(document).source(),
        !old(tokeniser).text().contains(60u8) && old(tokeniser).state() == State::Elements ==> r is Ok,
        bad_element_start(old(tokeniser).text(), old(tokeniser).pos()) && old(tokeniser).state()
            == State::Elements ==> r is Err,
{
    proof {
        tokeniser.lemma_within();
    }
    let ghost plain = !old(tokeniser).text().contains(60u8) && old(tokeniser).state() == State::Elements;
    let ghost bad = bad_element_start(old(tokeniser).text(), old(tokeniser).pos()) && old(tokeniser).state()
        == State::Elements;
    let ghost mut first = true;
    loop
        invariant
            plain == (!old(tokeniser).text().contains(60u8) && old(tokeniser).state() == State::Elements),
            bad == (bad_element_start(old(tokeniser).text(), old(tokeniser).pos()) && old(tokeniser).state()
                == State::Elements),
            bad ==> first,
            first ==> tokeniser.pos() == old(tokeniser).pos() && tokeniser.state() == old(tokeniser).state(),
            tokeniser.text() == old(tokeniser).text(),
            plain ==> tokeniser.state() == State::Elements,
            tokeniser.wf(),
            tokeniser.text() == document.source(),
            document.source() == old(document).source(),
            document.wf(),
            parse_ok(*parse_data, *document),
            item_count(*parse_data, *document) <= tokeniser.pos() + 1,
            tokeniser.pos() <= tokeniser.text().len(),
            document.source().len() + 3 < u32::MAX,
        decreases tokeniser.text().len() - tokeniser.pos(),
    {
        proof {
            let t = tokeniser.text();
            let p = tokeniser.pos();
            if plain && 0 <= p < t.len() && t[p] == 60u8 {
                assert(t.contains(t[p]));
            }
        }
        let token = match tokeniser.parse_next() {
            None => {
                return Ok(());
            },
            Some(Err(e)) => {
                return Err(e);
            },
            Some(Ok(token)) => token,
        };
        proof {
            first = false;
        }
        match token {
            Token::ProcessingInstruction { .. } => {},
            Token::ElementStart { qname, .. } => {
                parse_data.tag_name = qname;
            },
            Token::Attribute(attr) => {
                process_attribute(parse_data, attr, document)?;
            },
            Token::ElementControl { control, .. } => {
                process_element_control(control, document, parse_data)?;
            },
            Token::Text { span } => {
                let text = process_text(span.text);
                let parent = parse_data.parent_id;
                document.append_node(parent, NodeKind::Text(text), parse_data);
            },
        }
    }
}

/// Reads a document: elements with their attributes and namespaces, and text.
pub fn parse_svg<'a>(svg: &'a str) -> (r: SvgResult<Document<'a>>)
    requires
        svg.spec_bytes().len() + 3 < u32::MAX,
    ensures
        r matches Ok(d) ==> d.wf() && d.source() == svg.spec_bytes(),
        !svg.spec_bytes().contains(60u8) ==> r is Ok,
        bad_element_start(svg.spec_bytes(), 0) ==> r is Err,
{
    let mut document = Document {
        text: svg.as_bytes(),
        nodes: Vec::new(),
        attributes: Vec::new(),
        namespaces: Vec::new(),
    };
    document.nodes.push(
        NodeData {
            parent: None,
            previous_sibling: None,
            next_tree: None,
            last_child: None,
            kind: NodeKind::Root,
        },
    );
    document.namespaces.push(Namespace { prefix: Some("xml".as_bytes()), uri: NS_XML_URI.as_bytes() });
    let mut parse_data = ParseData {
        temporary_attributes: Vec::new(),
        first_attribute_index: 0,
        parent_id: NodeId::new(0),
        tag_name: QName {
            prefix: Span::from_text(document.text),
            local: Span::from_text(document.text),
            span: Span::from_text(document.text),
        },
        awaiting_next_tree: Vec::new(),
    };
    let mut tokeniser = Tokeniser::new(SvgStream::new(svg));
    parse_tokens(&mut tokeniser, &mut parse_data, &mut document)?;
    Ok(document)
}

} // verus!
