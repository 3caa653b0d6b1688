use vstd::prelude::*;

verus! {

/// What a node of a document is.
#[derive(Debug, Clone, Copy, PartialEq, Eq, Structural)]
pub enum NodeKind {
    Element,
    Text,
    Comment,
}

/// An attribute: name and value, as UTF-8 bytes.
#[derive(Debug, Clone)]
pub struct XmlAttr {
    pub name: Vec<u8>,
    pub value: Vec<u8>,
}

/// A node of a document held as an arena: `children` index the arena, and every child comes
/// after its parent.
#[derive(Debug, Clone)]
pub struct XmlNode {
    pub kind: NodeKind,
    pub name: Vec<u8>,
    pub attrs: Vec<XmlAttr>,
    pub text: Vec<u8>,
    pub children: Vec<usize>,
}

/// A parsed document; node 0 is the root element.
#[derive(Debug, Clone)]
pub struct XmlDoc {
    pub nodes: Vec<XmlNode>,
}

/// One step of writing a document.
#[derive(Debug, Clone)]
pub enum XmlEvent {
    Start(Vec<u8>, Vec<XmlAttr>),
    Text(Vec<u8>),
    Comment(Vec<u8>),
    End,
}

/// The contents of an event.
pub enum EventView {
    Start(Seq<u8>, Seq<(Seq<u8>, Seq<u8>)>),
    Text(Seq<u8>),
    Comment(Seq<u8>),
    End,
}

pub open spec fn attrs_view(a: Seq<XmlAttr>) -> Seq<(Seq<u8>, Seq<u8>)> {
    a.map_values(|x: XmlAttr| (x.name@, x.value@))
}

pub open spec fn event_view(e: XmlEvent) -> EventView {
    match e {
        XmlEvent::Start(n, a) => EventView::Start(n@, attrs_view(a@)),
        XmlEvent::Text(t) => EventView::Text(t@),
        XmlEvent::Comment(t) => EventView::Comment(t@),
        XmlEvent::End => EventView::End,
    }
}

pub open spec fn events_view(v: Seq<XmlEvent>) -> Seq<EventView> {
    v.map_values(|e: XmlEvent| event_view(e))
}

impl XmlDoc {
    /// Every child index points past its parent and into the arena.
    pub open spec fn wf(&self) -> bool {
        forall|i: int, k: int|
            0 <= i < self.nodes@.len() && 0 <= k < self.nodes@[i].children@.len() ==> i
                < #[trigger] self.nodes@[i].children@[k] < self.nodes@.len()
    }
}

/// The attributes that identify a `paper` (`id`) or a `purpose` (`val`) are there.
pub open spec fn has_key_attrs(name: Seq<u8>, a: Seq<(Seq<u8>, Seq<u8>)>) -> bool {
    &&& name == lit_paper() ==> attr_value(a, lit_id()) is Some
    &&& name == lit_purpose() ==> attr_value(a, lit_val()) is Some
}

impl XmlDoc {
    /// Every `paper` element has an `id` and every `purpose` element a `val`.
    pub open spec fn keys_present(&self) -> bool {
        forall|i: int|
            0 <= i < self.nodes@.len() && (#[trigger] self.nodes@[i]).kind == NodeKind::Element
                ==> has_key_attrs(self.nodes@[i].name@, attrs_view(self.nodes@[i].attrs@))
    }
}

pub open spec fn lit_paper() -> Seq<u8> {
    seq![0x70u8, 0x61u8, 0x70u8, 0x65u8, 0x72u8]
}

pub open spec fn lit_purpose() -> Seq<u8> {
    seq![0x70u8, 0x75u8, 0x72u8, 0x70u8, 0x6fu8, 0x73u8, 0x65u8]
}

pub open spec fn lit_id() -> Seq<u8> {
    seq![0x69u8, 0x64u8]
}

pub open spec fn lit_nation() -> Seq<u8> {
    seq![0x6eu8, 0x61u8, 0x74u8, 0x69u8, 0x6fu8, 0x6eu8]
}

pub open spec fn lit_val() -> Seq<u8> {
    seq![0x76u8, 0x61u8, 0x6cu8]
}

pub open spec fn lit_override() -> Seq<u8> {
    seq![0x6fu8, 0x76u8, 0x65u8, 0x72u8, 0x72u8, 0x69u8, 0x64u8, 0x65u8]
}

/// Value of the first attribute called `key`, if any.
pub open spec fn attr_value(a: Seq<(Seq<u8>, Seq<u8>)>, key: Seq<u8>) -> Option<Seq<u8>>
    decreases a.len(),
{
    if a.len() == 0 {
        None
    } else if a[0].0 == key {
        Some(a[0].1)
    } else {
        attr_value(a.drop_first(), key)
    }
}

pub open spec fn value_or_empty(o: Option<Seq<u8>>) -> Seq<u8> {
    match o {
        Some(v) => v,
        None => seq![],
    }
}

/// `k1=v1,k2=v2,...` over the first `n` attributes.
pub open spec fn joined_attrs(a: Seq<(Seq<u8>, Seq<u8>)>, n: int) -> Seq<u8>
    decreases n,
{
    if n <= 0 {
        seq![]
    } else {
        let prev = joined_attrs(a, n - 1);
        let item = a[n - 1].0 + seq![0x3du8] + a[n - 1].1;
        if n == 1 {
            item
        } else {
            prev + seq![0x2cu8] + item
        }
    }
}

/// The identity of an element. A `paper` is `pa#<id>#<nation>`, a `purpose` is
/// `pr#<val>`; another element with no attributes is `<tag>#override` when matching and has
/// none when indexing; one with an `id` is `<tag>#<id>`; any other is
/// `<tag>[k1=v1,k2=v2,...]` in attribute order. A missing attribute reads as empty.
pub open spec fn identity(name: Seq<u8>, a: Seq<(Seq<u8>, Seq<u8>)>, matching: bool) -> Option<
    Seq<u8>,
> {
    if name == lit_paper() {
        Some(
            seq![0x70u8, 0x61u8, 0x23u8] + value_or_empty(attr_value(a, lit_id())) + seq![0x23u8]
                + value_or_empty(attr_value(a, lit_nation())),
        )
    } else if name == lit_purpose() {
        Some(seq![0x70u8, 0x72u8, 0x23u8] + value_or_empty(attr_value(a, lit_val())))
    } else if a.len() == 0 {
        if matching {
            Some(name + seq![0x23u8] + lit_override())
        } else {
            None
        }
    } else {
        match attr_value(a, lit_id()) {
            Some(v) => Some(name + seq![0x23u8] + v),
            None => Some(name + seq![0x5bu8] + joined_attrs(a, a.len() as int) + seq![0x5du8]),
        }
    }
}

fn bytes_eq(a: &[u8], b: &[u8]) -> (r: bool)
    ensures
        r <==> a@ == b@,
{
    if a.len() != b.len() {
        return false;
    }
    let mut i: usize = 0;
    while i < a.len()
        invariant
            a@.len() == b@.len(),
            i <= a@.len(),
            forall|j: int| 0 <= j < i ==> a@[j] == b@[j],
        decreases a@.len() - i,
    {
        if a[i] != b[i] {
            return false;
        }
        i = i + 1;
    }
    assert(a@ =~= b@);
    true
}

fn append(out: &mut Vec<u8>, b: &[u8])
    ensures
        final(out)@ == old(out)@ + b@,
{
    let mut i: usize = 0;
    while i < b.len()
        invariant
            i <= b@.len(),
            out@ == old(out)@ + b@.subrange(0, i as int),
        decreases b@.len() - i,
    {
        out.push(b[i]);
        i = i + 1;
        assert(out@ =~= old(out)@ + b@.subrange(0, i as int));
    }
    assert(b@.subrange(0, b@.len() as int) =~= b@);
}

fn find_attr(a: &Vec<XmlAttr>, key: &[u8]) -> (r: Option<usize>)
    ensures
        match r {
            Some(j) => j < a@.len() && attr_value(attrs_view(a@), key@) == Some(a@[j as int].value@),
            None => attr_value(attrs_view(a@), key@) is None,
        },
{
    let mut i: usize = 0;
    assert(attrs_view(a@).skip(0) =~= attrs_view(a@));
    while i < a.len()
        invariant
            i <= a@.len(),
            attr_value(attrs_view(a@), key@) == attr_value(attrs_view(a@).skip(i as int), key@),
        decreases a@.len() - i,
    {
        assert(attrs_view(a@).skip(i as int).drop_first() =~= attrs_view(a@).skip(i + 1));
        if bytes_eq(a[i].name.as_slice(), key) {
            return Some(i);
        }
        i = i + 1;
    }
    None
}

fn append_attr(out: &mut Vec<u8>, a: &Vec<XmlAttr>, key: &[u8])
    ensures
        final(out)@ == old(out)@ + value_or_empty(attr_value(attrs_view(a@), key@)),
{
    match find_attr(a, key) {
        Some(j) => append(out, a[j].value.as_slice()),
        None => {
            assert(old(out)@ + seq![] =~= old(out)@);
        },
    }
}

/// Computes [`identity`] of an element.
pub fn element_identity(name: &Vec<u8>, attrs: &Vec<XmlAttr>, matching: bool) -> (r: Option<Vec<u8>>)
    requires
        has_key_attrs(name@, attrs_view(attrs@)),
    ensures
        match r {
            Some(v) => identity(name@, attrs_view(attrs@), matching) == Some(v@),
            None => identity(name@, attrs_view(attrs@), matching) is None,
        },
{
    let paper: Vec<u8> = vec![0x70u8, 0x61u8, 0x70u8, 0x65u8, 0x72u8];
    let purpose: Vec<u8> = vec![0x70u8, 0x75u8, 0x72u8, 0x70u8, 0x6fu8, 0x73u8, 0x65u8];
    let id: Vec<u8> = vec![0x69u8, 0x64u8];
    let nation: Vec<u8> = vec![0x6eu8, 0x61u8, 0x74u8, 0x69u8, 0x6fu8, 0x6eu8];
    let val: Vec<u8> = vec![0x76u8, 0x61u8, 0x6cu8];
    assert(paper@ =~= lit_paper());
    assert(purpose@ =~= lit_purpose());
    assert(id@ =~= lit_id());
    assert(nation@ =~= lit_nation());
    assert(val@ =~= lit_val());
    let av = Ghost(attrs_view(attrs@));
    if bytes_eq(name.as_slice(), paper.as_slice()) {
        let mut out: Vec<u8> = vec![0x70u8, 0x61u8, 0x23u8];
        append_attr(&mut out, attrs, id.as_slice());
        out.push(0x23u8);
        append_attr(&mut out, attrs, nation.as_slice());
        assert(out@ =~= seq![0x70u8, 0x61u8, 0x23u8] + value_or_empty(attr_value(av@, lit_id()))
            + seq![0x23u8] + value_or_empty(attr_value(av@, lit_nation())));
        Some(out)
    } else if bytes_eq(name.as_slice(), purpose.as_slice()) {
        let mut out: Vec<u8> = vec![0x70u8, 0x72u8, 0x23u8];
        append_attr(&mut out, attrs, val.as_slice());
        assert(out@ =~= seq![0x70u8, 0x72u8, 0x23u8] + value_or_empty(attr_value(av@, lit_val())));
        Some(out)
    } else if attrs.len() == 0 {
        if matching {
            let mut out = vstd::slice::slice_to_vec(name.as_slice());
            out.push(0x23u8);
            let ov: Vec<u8> = vec![0x6fu8, 0x76u8, 0x65u8, 0x72u8, 0x72u8, 0x69u8, 0x64u8, 0x65u8];
            append(&mut out, ov.as_slice());
            assert(out@ =~= name@ + seq![0x23u8] + lit_override());
            Some(out)
        } else {
            None
        }
    } else {
        match find_attr(attrs, id.as_slice()) {
            Some(j) => {
                let mut out = vstd::slice::slice_to_vec(name.as_slice());
                out.push(0x23u8);
                append(&mut out, attrs[j].value.as_slice());
                assert(out@ =~= name@ + seq![0x23u8] + attrs@[j as int].value@);
                Some(out)
            },
            None => {
                let mut out = vstd::slice::slice_to_vec(name.as_slice());
                out.push(0x5bu8);
                let ghost base = out@;
                let mut k: usize = 0;
                while k < attrs.len()
                    invariant
                        k <= attrs@.len(),
                        av@ == attrs_view(attrs@),
                        out@ == base + joined_attrs(av@, k as int),
                    decreases attrs@.len() - k,
                {
                    if k > 0 {
                        out.push(0x2cu8);
                    }
                    append(&mut out, attrs[k].name.as_slice());
                    out.push(0x3du8);
                    append(&mut out, attrs[k].value.as_slice());
                    k = k + 1;
                    assert(out@ =~= base + joined_attrs(av@, k as int));
                }
                out.push(0x5du8);
                assert(out@ =~= name@ + seq![0x5bu8] + joined_attrs(av@, attrs@.len() as int) + seq![0x5du8]);
                Some(out)
            },
        }
    }
}


/// The attribute is the whole-element override sentinel `id="override"`.
pub open spec fn is_sentinel(x: (Seq<u8>, Seq<u8>)) -> bool {
    x.0 == lit_id() && x.1 == lit_override()
}

/// The first `n` attributes without the sentinel.
pub open spec fn kept_attrs(a: Seq<(Seq<u8>, Seq<u8>)>, n: int) -> Seq<(Seq<u8>, Seq<u8>)>
    decreases n,
{
    if n <= 0 {
        seq![]
    } else if is_sentinel(a[n - 1]) {
        kept_attrs(a, n - 1)
    } else {
        kept_attrs(a, n - 1).push(a[n - 1])
    }
}

/// The events that write node `i` and everything under it, as it stands, without the
/// sentinel attribute.
pub open spec fn subtree(d: Seq<XmlNode>, i: int) -> Seq<EventView>
    decreases d.len() - i, 1int, 0int,
{
    if !(0 <= i < d.len()) {
        seq![]
    } else {
        match d[i].kind {
            NodeKind::Element => {
                let a = attrs_view(d[i].attrs@);
                seq![EventView::Start(d[i].name@, kept_attrs(a, a.len() as int))] + subtree_children(
                    d,
                    i,
                    d[i].children@.len() as int,
                ) + seq![EventView::End]
            },
            NodeKind::Text => seq![EventView::Text(d[i].text@)],
            NodeKind::Comment => seq![EventView::Comment(d[i].text@)],
        }
    }
}

/// The events of the first `k` children of node `i`.
pub open spec fn subtree_children(d: Seq<XmlNode>, i: int, k: int) -> Seq<EventView>
    decreases d.len() - i, 0int, k,
{
    if k <= 0 || !(0 <= i < d.len()) || k > d[i].children@.len() {
        seq![]
    } else {
        let c = d[i].children@[k - 1] as int;
        subtree_children(d, i, k - 1) + if i < c < d.len() {
            subtree(d, c)
        } else {
            seq![]
        }
    }
}

fn copy_bytes(b: &Vec<u8>) -> (r: Vec<u8>)
    ensures
        r@ == b@,
{
    vstd::slice::slice_to_vec(b.as_slice())
}

fn push_event(out: &mut Vec<XmlEvent>, e: XmlEvent)
    ensures
        events_view(final(out)@) == events_view(old(out)@).push(event_view(e)),
{
    out.push(e);
    assert(events_view(out@) =~= events_view(old(out)@).push(event_view(e)));
}

fn kept_attr_copies(a: &Vec<XmlAttr>) -> (r: Vec<XmlAttr>)
    ensures
        attrs_view(r@) == kept_attrs(attrs_view(a@), a@.len() as int),
{
    let ghost av = attrs_view(a@);
    let id: Vec<u8> = vec![0x69u8, 0x64u8];
    let ov: Vec<u8> = vec![0x6fu8, 0x76u8, 0x65u8, 0x72u8, 0x72u8, 0x69u8, 0x64u8, 0x65u8];
    assert(id@ =~= lit_id());
    assert(ov@ =~= lit_override());
    let mut r: Vec<XmlAttr> = Vec::new();
    let mut k: usize = 0;
    while k < a.len()
        invariant
            k <= a@.len(),
            av == attrs_view(a@),
            id@ == lit_id(),
            ov@ == lit_override(),
            attrs_view(r@) == kept_attrs(av, k as int),
        decreases a@.len() - k,
    {
        let x = &a[k];
        if !(bytes_eq(x.name.as_slice(), id.as_slice()) && bytes_eq(x.value.as_slice(), ov.as_slice())) {
            r.push(XmlAttr { name: copy_bytes(&x.name), value: copy_bytes(&x.value) });
        }
        k = k + 1;
        assert(attrs_view(r@) =~= kept_attrs(av, k as int));
    }
    r
}

/// Appends the events of node `i` and everything under it, as it stands.
pub fn write_node(d: &XmlDoc, i: usize, out: &mut Vec<XmlEvent>)
    requires
        d.wf(),
        i < d.nodes@.len(),
    ensures
        events_view(final(out)@) == events_view(old(out)@) + subtree(d.nodes@, i as int),
    decreases d.nodes@.len() - i,
{
    let n = &d.nodes[i];
    match n.kind {
        NodeKind::Element => {
            let ghost a = attrs_view(n.attrs@);
            push_event(out, XmlEvent::Start(copy_bytes(&n.name), kept_attr_copies(&n.attrs)));
            let ghost start = events_view(out@);
            let mut k: usize = 0;
            while k < n.children.len()
                invariant
                    d.wf(),
                    i < d.nodes@.len(),
                    n == d.nodes@[i as int],
                    k <= n.children@.len(),
                    events_view(out@) == start + subtree_children(d.nodes@, i as int, k as int),
                decreases n.children@.len() - k,
            {
                let c = n.children[k];
                assert(i < c < d.nodes@.len());
                write_node(d, c, out);
                k = k + 1;
                assert(events_view(out@) =~= start + subtree_children(d.nodes@, i as int, k as int));
            }
            push_event(out, XmlEvent::End);
            assert(events_view(out@) =~= events_view(old(out)@) + subtree(d.nodes@, i as int));
        },
        NodeKind::Text => {
            push_event(out, XmlEvent::Text(copy_bytes(&n.text)));
            assert(events_view(out@) =~= events_view(old(out)@) + subtree(d.nodes@, i as int));
        },
        NodeKind::Comment => {
            push_event(out, XmlEvent::Comment(copy_bytes(&n.text)));
            assert(events_view(out@) =~= events_view(old(out)@) + subtree(d.nodes@, i as int));
        },
    }
}


/// An element of the patch filed under the path of its parent and its identity.
#[derive(Debug, Clone)]
pub struct IndexEntry {
    pub path: Vec<u8>,
    pub id: Vec<u8>,
    pub node: usize,
}

pub open spec fn entry_view(e: IndexEntry) -> (Seq<u8>, Seq<u8>, usize) {
    (e.path@, e.id@, e.node)
}

pub open spec fn index_view(v: Seq<IndexEntry>) -> Seq<(Seq<u8>, Seq<u8>, usize)> {
    v.map_values(|e: IndexEntry| entry_view(e))
}

/// The tag names from the root element down to `name`, joined by `/`.
pub open spec fn join_path(path: Seq<u8>, name: Seq<u8>) -> Seq<u8> {
    if path.len() == 0 {
        name
    } else {
        path + seq![0x2fu8] + name
    }
}

/// First entry at or after `j` filed under `(path, id)`.
pub open spec fn find_key(idx: Seq<(Seq<u8>, Seq<u8>, usize)>, path: Seq<u8>, id: Seq<u8>, j: int) -> Option<int>
    decreases idx.len() - j,
{
    if j < 0 || j >= idx.len() {
        None
    } else if idx[j].0 == path && idx[j].1 == id {
        Some(j)
    } else {
        find_key(idx, path, id, j + 1)
    }
}

/// Files `node` under `(path, id)`, taking the place of an element filed there before.
pub open spec fn index_insert(idx: Seq<(Seq<u8>, Seq<u8>, usize)>, path: Seq<u8>, id: Seq<u8>, node: usize) -> Seq<(Seq<u8>, Seq<u8>, usize)> {
    match find_key(idx, path, id, 0) {
        Some(j) => idx.update(j, (path, id, node)),
        None => idx.push((path, id, node)),
    }
}

/// Files element `i` (its parent's path is `path`) and everything under it, in document
/// order.
pub open spec fn index_node(p: Seq<XmlNode>, i: int, path: Seq<u8>, idx: Seq<(Seq<u8>, Seq<u8>, usize)>) -> Seq<(Seq<u8>, Seq<u8>, usize)>
    decreases p.len() - i, 1int, 0int,
{
    if !(0 <= i < p.len()) || p[i].kind != NodeKind::Element {
        idx
    } else {
        let idx1 = match identity(p[i].name@, attrs_view(p[i].attrs@), false) {
            Some(id) => index_insert(idx, path, id, i as usize),
            None => idx,
        };
        index_children(p, i, join_path(path, p[i].name@), idx1, p[i].children@.len() as int)
    }
}

pub open spec fn index_children(p: Seq<XmlNode>, i: int, pi: Seq<u8>, idx: Seq<(Seq<u8>, Seq<u8>, usize)>, k: int) -> Seq<(Seq<u8>, Seq<u8>, usize)>
    decreases p.len() - i, 0int, k,
{
    if k <= 0 || !(0 <= i < p.len()) || k > p[i].children@.len() {
        idx
    } else {
        let idx1 = index_children(p, i, pi, idx, k - 1);
        let c = p[i].children@[k - 1] as int;
        if i < c < p.len() {
            index_node(p, c, pi, idx1)
        } else {
            idx1
        }
    }
}

/// The path-scoped identity index of a patch document.
pub open spec fn patch_index(p: Seq<XmlNode>) -> Seq<(Seq<u8>, Seq<u8>, usize)> {
    index_node(p, 0, seq![], seq![])
}

fn find_entry(idx: &Vec<IndexEntry>, path: &Vec<u8>, id: &Vec<u8>) -> (r: Option<usize>)
    ensures
        match r {
            Some(j) => find_key(index_view(idx@), path@, id@, 0) == Some(j as int) && j < idx@.len(),
            None => find_key(index_view(idx@), path@, id@, 0) is None,
        },
{
    let ghost iv = index_view(idx@);
    let mut j: usize = 0;
    while j < idx.len()
        invariant
            j <= idx@.len(),
            iv == index_view(idx@),
            find_key(iv, path@, id@, 0) == find_key(iv, path@, id@, j as int),
        decreases idx@.len() - j,
    {
        if bytes_eq(idx[j].path.as_slice(), path.as_slice()) && bytes_eq(idx[j].id.as_slice(), id.as_slice()) {
            return Some(j);
        }
        j = j + 1;
    }
    None
}

fn index_node_exec(p: &XmlDoc, i: usize, path: &Vec<u8>, idx: &mut Vec<IndexEntry>)
    requires
        p.keys_present(),
        p.wf(),
        i < p.nodes@.len(),
    ensures
        index_view(final(idx)@) == index_node(p.nodes@, i as int, path@, index_view(old(idx)@)),
    decreases p.nodes@.len() - i,
{
    let n = &p.nodes[i];
    if n.kind != NodeKind::Element {
        return;
    }
    match element_identity(&n.name, &n.attrs, false) {
        Some(id) => {
            let ghost before = index_view(idx@);
            match find_entry(idx, path, &id) {
                Some(j) => {
                    idx.set(j, IndexEntry { path: copy_bytes(path), id, node: i });
                },
                None => {
                    idx.push(IndexEntry { path: copy_bytes(path), id, node: i });
                },
            }
            assert(index_view(idx@) =~= index_insert(before, path@, identity(n.name@, attrs_view(n.attrs@), false).unwrap(), i));
        },
        None => {},
    }
    let pi = child_path(path, &n.name);
    let ghost start = index_view(idx@);
    let mut k: usize = 0;
    while k < n.children.len()
        invariant
            p.wf(),
            p.keys_present(),
            i < p.nodes@.len(),
            n == p.nodes@[i as int],
            k <= n.children@.len(),
            pi@ == join_path(path@, n.name@),
            index_view(idx@) == index_children(p.nodes@, i as int, pi@, start, k as int),
        decreases n.children@.len() - k,
    {
        let c = n.children[k];
        assert(i < c < p.nodes@.len());
        index_node_exec(p, c, &pi, idx);
        k = k + 1;
    }
}

fn child_path(path: &Vec<u8>, name: &Vec<u8>) -> (r: Vec<u8>)
    ensures
        r@ == join_path(path@, name@),
{
    if path.len() == 0 {
        copy_bytes(name)
    } else {
        let mut r = copy_bytes(path);
        r.push(0x2fu8);
        append(&mut r, name.as_slice());
        r
    }
}

/// Builds the path-scoped identity index of a patch document.
pub fn build_index(p: &XmlDoc) -> (r: Vec<IndexEntry>)
    requires
        p.keys_present(),
        p.wf(),
        p.nodes@.len() > 0,
    ensures
        index_view(r@) == patch_index(p.nodes@),
{
    let mut idx: Vec<IndexEntry> = Vec::new();
    let root: Vec<u8> = Vec::new();
    assert(index_view(idx@) =~= seq![]);
    assert(root@ =~= seq![]);
    index_node_exec(p, 0, &root, &mut idx);
    idx
}


/// First entry at or after `j` that is still unused and filed under `(path, id)`.
pub open spec fn find_open(idx: Seq<(Seq<u8>, Seq<u8>, usize)>, used: Seq<bool>, path: Seq<u8>, id: Seq<u8>, j: int) -> Option<int>
    decreases idx.len() - j,
{
    if j < 0 || j >= idx.len() {
        None
    } else if !used[j] && idx[j].0 == path && idx[j].1 == id {
        Some(j)
    } else {
        find_open(idx, used, path, id, j + 1)
    }
}

/// Writes, in index order, the unused entries among the first `k` filed under `path`, and
/// marks them used.
pub open spec fn drain(p: Seq<XmlNode>, idx: Seq<(Seq<u8>, Seq<u8>, usize)>, path: Seq<u8>, used: Seq<bool>, k: int) -> (Seq<EventView>, Seq<bool>)
    decreases k,
{
    if k <= 0 {
        (seq![], used)
    } else {
        let (e, u) = drain(p, idx, path, used, k - 1);
        if !u[k - 1] && idx[k - 1].0 == path {
            (e + subtree(p, idx[k - 1].2 as int), u.update(k - 1, true))
        } else {
            (e, u)
        }
    }
}

/// The merge of element `i` of the original, whose parent's path is `path`: the patch's
/// element with the same path and identity, verbatim; else the original element verbatim if
/// it has attributes; else the element with its children merged and then the patch's
/// remaining elements for its path.
pub open spec fn merge_node(o: Seq<XmlNode>, p: Seq<XmlNode>, idx: Seq<(Seq<u8>, Seq<u8>, usize)>, i: int, path: Seq<u8>, used: Seq<bool>) -> (Seq<EventView>, Seq<bool>)
    decreases o.len() - i, 1int, 0int,
{
    if !(0 <= i < o.len()) {
        (seq![], used)
    } else if o[i].kind != NodeKind::Element {
        (subtree(o, i), used)
    } else {
        let a = attrs_view(o[i].attrs@);
        let idopt = identity(o[i].name@, a, true);
        let hit = match idopt {
            Some(id) => find_open(idx, used, path, id, 0),
            None => None,
        };
        match hit {
            Some(j) => (subtree(p, idx[j].2 as int), used.update(j, true)),
            None => if idopt is Some && a.len() > 0 {
                (subtree(o, i), used)
            } else {
                let pi = join_path(path, o[i].name@);
                let (ce, u1) = merge_children(o, p, idx, i, pi, used, o[i].children@.len() as int);
                let (ne, u2) = drain(p, idx, pi, u1, idx.len() as int);
                (seq![EventView::Start(o[i].name@, seq![])] + ce + ne + seq![EventView::End], u2)
            },
        }
    }
}

/// The merge of the first `k` children of element `i`; text and comments are copied.
pub open spec fn merge_children(o: Seq<XmlNode>, p: Seq<XmlNode>, idx: Seq<(Seq<u8>, Seq<u8>, usize)>, i: int, pi: Seq<u8>, used: Seq<bool>, k: int) -> (Seq<EventView>, Seq<bool>)
    decreases o.len() - i, 0int, k,
{
    if k <= 0 || !(0 <= i < o.len()) || k > o[i].children@.len() {
        (seq![], used)
    } else {
        let (e1, u1) = merge_children(o, p, idx, i, pi, used, k - 1);
        let c = o[i].children@[k - 1] as int;
        if i < c < o.len() {
            let (e2, u2) = merge_node(o, p, idx, c, pi, u1);
            (e1 + e2, u2)
        } else {
            (e1, u1)
        }
    }
}

/// The merged document: the original's root element merged against the patch's index.
pub open spec fn merged(o: Seq<XmlNode>, p: Seq<XmlNode>) -> Seq<EventView> {
    let idx = patch_index(p);
    merge_node(o, p, idx, 0, seq![], Seq::new(idx.len(), |j: int| false)).0
}

fn find_open_entry(idx: &Vec<IndexEntry>, used: &Vec<bool>, path: &Vec<u8>, id: &Vec<u8>) -> (r: Option<usize>)
    requires
        used@.len() == idx@.len(),
    ensures
        match r {
            Some(j) => find_open(index_view(idx@), used@, path@, id@, 0) == Some(j as int) && j < idx@.len(),
            None => find_open(index_view(idx@), used@, path@, id@, 0) is None,
        },
{
    let ghost iv = index_view(idx@);
    let mut j: usize = 0;
    while j < idx.len()
        invariant
            j <= idx@.len(),
            used@.len() == idx@.len(),
            iv == index_view(idx@),
            find_open(iv, used@, path@, id@, 0) == find_open(iv, used@, path@, id@, j as int),
        decreases idx@.len() - j,
    {
        if !used[j] && bytes_eq(idx[j].path.as_slice(), path.as_slice()) && bytes_eq(idx[j].id.as_slice(), id.as_slice()) {
            return Some(j);
        }
        j = j + 1;
    }
    None
}

fn write_if_present(d: &XmlDoc, i: usize, out: &mut Vec<XmlEvent>)
    requires
        d.wf(),
    ensures
        events_view(final(out)@) == events_view(old(out)@) + subtree(d.nodes@, i as int),
{
    if i < d.nodes.len() {
        write_node(d, i, out);
    } else {
        assert(events_view(out@) =~= events_view(old(out)@) + subtree(d.nodes@, i as int));
    }
}

fn drain_exec(p: &XmlDoc, idx: &Vec<IndexEntry>, path: &Vec<u8>, used: &mut Vec<bool>, out: &mut Vec<XmlEvent>)
    requires
        p.wf(),
        old(used)@.len() == idx@.len(),
    ensures
        final(used)@.len() == idx@.len(),
        ({
            let (e, u) = drain(p.nodes@, index_view(idx@), path@, old(used)@, idx@.len() as int);
            events_view(final(out)@) == events_view(old(out)@) + e && final(used)@ == u
        }),
{
    let ghost iv = index_view(idx@);
    let ghost ev0 = events_view(out@);
    let mut j: usize = 0;
    while j < idx.len()
        invariant
            p.wf(),
            j <= idx@.len(),
            used@.len() == idx@.len(),
            iv == index_view(idx@),
            ({
                let (e, u) = drain(p.nodes@, iv, path@, old(used)@, j as int);
                events_view(out@) == ev0 + e && used@ == u
            }),
        decreases idx@.len() - j,
    {
        if !used[j] && bytes_eq(idx[j].path.as_slice(), path.as_slice()) {
            write_if_present(p, idx[j].node, out);
            used.set(j, true);
        }
        j = j + 1;
        assert(events_view(out@) =~= ev0 + drain(p.nodes@, iv, path@, old(used)@, j as int).0);
    }
}

fn merge_node_exec(o: &XmlDoc, p: &XmlDoc, idx: &Vec<IndexEntry>, i: usize, path: &Vec<u8>, used: &mut Vec<bool>, out: &mut Vec<XmlEvent>)
    requires
        o.keys_present(),
        p.keys_present(),
        o.wf(),
        p.wf(),
        i < o.nodes@.len(),
        old(used)@.len() == idx@.len(),
    ensures
        final(used)@.len() == idx@.len(),
        ({
            let (e, u) = merge_node(o.nodes@, p.nodes@, index_view(idx@), i as int, path@, old(used)@);
            events_view(final(out)@) == events_view(old(out)@) + e && final(used)@ == u
        }),
    decreases o.nodes@.len() - i,
{
    let ghost iv = index_view(idx@);
    let n = &o.nodes[i];
    if n.kind != NodeKind::Element {
        write_node(o, i, out);
        return;
    }
    let idopt = element_identity(&n.name, &n.attrs, true);
    let hit = match &idopt {
        Some(id) => find_open_entry(idx, used, path, id),
        None => None,
    };
    match hit {
        Some(j) => {
            write_if_present(p, idx[j].node, out);
            used.set(j, true);
        },
        None => {
            if idopt.is_some() && n.attrs.len() > 0 {
                write_node(o, i, out);
            } else {
                let pi = child_path(path, &n.name);
                push_event(out, XmlEvent::Start(copy_bytes(&n.name), Vec::new()));
                assert(attrs_view(Seq::<XmlAttr>::empty()) =~= seq![]);
                let ghost start = events_view(out@);
                let ghost u0 = used@;
                let mut k: usize = 0;
                while k < n.children.len()
                    invariant
                        o.wf(),
                        p.wf(),
                        o.keys_present(),
                        p.keys_present(),
                        i < o.nodes@.len(),
                        n == o.nodes@[i as int],
                        k <= n.children@.len(),
                        used@.len() == idx@.len(),
                        iv == index_view(idx@),
                        pi@ == join_path(path@, n.name@),
                        ({
                            let (e, u) = merge_children(o.nodes@, p.nodes@, iv, i as int, pi@, u0, k as int);
                            events_view(out@) == start + e && used@ == u
                        }),
                    decreases n.children@.len() - k,
                {
                    let c = n.children[k];
                    assert(i < c < o.nodes@.len());
                    merge_node_exec(o, p, idx, c, &pi, used, out);
                    k = k + 1;
                    assert(events_view(out@) =~= start + merge_children(o.nodes@, p.nodes@, iv, i as int, pi@, u0, k as int).0);
                }
                let ghost mid = events_view(out@);
                drain_exec(p, idx, &pi, used, out);
                push_event(out, XmlEvent::End);
                assert(events_view(out@) =~= events_view(old(out)@) + merge_node(o.nodes@, p.nodes@, iv, i as int, path@, old(used)@).0);
            }
        },
    }
}

/// Merges a patch document into an original one and returns the events that write the result.
pub fn merge(o: &XmlDoc, p: &XmlDoc) -> (r: Vec<XmlEvent>)
    requires
        o.keys_present(),
        p.keys_present(),
        o.wf(),
        p.wf(),
        o.nodes@.len() > 0,
        p.nodes@.len() > 0,
    ensures
        events_view(r@) == merged(o.nodes@, p.nodes@),
{
    let idx = build_index(p);
    let mut used: Vec<bool> = Vec::new();
    let mut j: usize = 0;
    while j < idx.len()
        invariant
            j <= idx@.len(),
            used@ == Seq::new(j as nat, |q: int| false),
        decreases idx@.len() - j,
    {
        used.push(false);
        j = j + 1;
        assert(used@ =~= Seq::new(j as nat, |q: int| false));
    }
    let mut out: Vec<XmlEvent> = Vec::new();
    let root: Vec<u8> = Vec::new();
    assert(root@ =~= seq![]);
    merge_node_exec(o, p, &idx, 0, &root, &mut used, &mut out);
    assert(events_view(out@) =~= merged(o.nodes@, p.nodes@));
    out
}


/// Whether every `paper` element has an `id` and every `purpose` element a `val`.
pub fn keys_present(d: &XmlDoc) -> (r: bool)
    ensures
        r == d.keys_present(),
{
    let paper: Vec<u8> = vec![0x70u8, 0x61u8, 0x70u8, 0x65u8, 0x72u8];
    let purpose: Vec<u8> = vec![0x70u8, 0x75u8, 0x72u8, 0x70u8, 0x6fu8, 0x73u8, 0x65u8];
    let id: Vec<u8> = vec![0x69u8, 0x64u8];
    let val: Vec<u8> = vec![0x76u8, 0x61u8, 0x6cu8];
    assert(paper@ =~= lit_paper() && purpose@ =~= lit_purpose() && id@ =~= lit_id() && val@ =~= lit_val());
    let mut i: usize = 0;
    while i < d.nodes.len()
        invariant
            i <= d.nodes@.len(),
            paper@ == lit_paper(),
            purpose@ == lit_purpose(),
            id@ == lit_id(),
            val@ == lit_val(),
            forall|j: int|
                0 <= j < i && (#[trigger] d.nodes@[j]).kind == NodeKind::Element ==> has_key_attrs(
                    d.nodes@[j].name@,
                    attrs_view(d.nodes@[j].attrs@),
                ),
        decreases d.nodes@.len() - i,
    {
        let n = &d.nodes[i];
        if n.kind == NodeKind::Element {
            if bytes_eq(n.name.as_slice(), paper.as_slice()) && find_attr(&n.attrs, id.as_slice()).is_none() {
                return false;
            }
            if bytes_eq(n.name.as_slice(), purpose.as_slice()) && find_attr(&n.attrs, val.as_slice()).is_none() {
                return false;
            }
        }
        i = i + 1;
    }
    true
}


/// `s` with every occurrence of `from` replaced by `to`, scanning left to right without
/// overlaps.
pub open spec fn replaced(s: Seq<u8>, from: Seq<u8>, to: Seq<u8>) -> Seq<u8>
    decreases s.len(),
{
    if s.len() == 0 || from.len() == 0 {
        s
    } else if s.len() >= from.len() && s.subrange(0, from.len() as int) == from {
        to + replaced(s.subrange(from.len() as int, s.len() as int), from, to)
    } else {
        seq![s[0]] + replaced(s.subrange(1, s.len() as int), from, to)
    }
}

fn starts_at(s: &[u8], i: usize, pat: &[u8]) -> (r: bool)
    requires
        i <= s@.len(),
    ensures
        r <==> (s@.len() - i >= pat@.len() && s@.subrange(i as int, i + pat@.len()) == pat@),
{
    if s.len() - i < pat.len() {
        return false;
    }
    let n = s.len();
    let mut k: usize = 0;
    while k < pat.len()
        invariant
            k <= pat@.len(),
            n == s@.len(),
            i <= n,
            s@.len() - i >= pat@.len(),
            forall|j: int| 0 <= j < k ==> s@[i + j] == pat@[j],
        decreases pat@.len() - k,
    {
        if s[i + k] != pat[k] {
            assert(s@.subrange(i as int, i + pat@.len())[k as int] != pat@[k as int]);
            return false;
        }
        k = k + 1;
    }
    assert(s@.subrange(i as int, i + pat@.len()) =~= pat@);
    true
}

/// Replaces every occurrence of `from` in `s` by `to`, left to right.
pub fn replace_all(s: &[u8], from: &[u8], to: &[u8]) -> (r: Vec<u8>)
    ensures
        r@ == replaced(s@, from@, to@),
{
    if from.len() == 0 {
        return vstd::slice::slice_to_vec(s);
    }
    let mut out: Vec<u8> = Vec::new();
    let mut i: usize = 0;
    assert(s@.subrange(0, s@.len() as int) =~= s@);
    while i < s.len()
        invariant
            i <= s@.len(),
            from@.len() > 0,
            out@ + replaced(s@.subrange(i as int, s@.len() as int), from@, to@) == replaced(s@, from@, to@),
        decreases s@.len() - i,
    {
        let ghost rest = s@.subrange(i as int, s@.len() as int);
        if starts_at(s, i, from) {
            assert(rest.subrange(0, from@.len() as int) =~= s@.subrange(i as int, i + from@.len()));
            assert(rest.subrange(from@.len() as int, rest.len() as int) =~= s@.subrange(i + from@.len(), s@.len() as int));
            append(&mut out, to);
            i = i + from.len();
        } else {
            assert(rest.len() >= from@.len() ==> rest.subrange(0, from@.len() as int) =~= s@.subrange(i as int, i + from@.len()));
            assert(rest.subrange(1, rest.len() as int) =~= s@.subrange(i + 1, s@.len() as int));
            out.push(s[i]);
            i = i + 1;
        }
    }
    assert(s@.subrange(s@.len() as int, s@.len() as int) =~= Seq::<u8>::empty());
    assert(out@ + seq![] =~= out@);
    out
}

} // verus!
