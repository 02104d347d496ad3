//! DOM snapshots: the node tree, its binary serialization, snapshot
//! headers, structural diffing and patch application.

use vstd::prelude::*;
use vstd::string::StringSliceAdditionalSpecFns;
use vstd::utf8::encode_utf8;
use crate::text::string_from_utf8;

verus! {

/// The kinds of node a snapshot can hold.
#[derive(Debug, Clone, Copy, PartialEq, Eq, Structural)]
pub enum DomNodeType {
    Element,
    Text,
    Comment,
    Document,
    DocumentFragment,
}

/// One node of the tree. Attribute order is the insertion order.
#[derive(Debug)]
pub struct DomNode {
    pub node_type: DomNodeType,
    pub tag_name: Option<String>,
    pub attributes: Vec<(String, String)>,
    pub text_content: Option<String>,
    pub children: Vec<DomNode>,
    pub is_self_closing: bool,
    pub id: Option<u32>,
}

/// The mathematical value of a node.
#[verifier::ext_equal]
pub struct SpecDomNode {
    pub node_type: DomNodeType,
    pub tag_name: Option<Seq<char>>,
    pub attributes: Seq<(Seq<char>, Seq<char>)>,
    pub text_content: Option<Seq<char>>,
    pub children: Seq<SpecDomNode>,
    pub is_self_closing: bool,
    pub id: Option<u32>,
}

/// The values of an attribute list.
pub open spec fn attrs_view(a: Seq<(String, String)>) -> Seq<(Seq<char>, Seq<char>)> {
    a.map_values(|p: (String, String)| (p.0@, p.1@))
}

/// The value of a node.
pub open spec fn dom_view(n: DomNode) -> SpecDomNode
    decreases n,
{
    SpecDomNode {
        node_type: n.node_type,
        tag_name: match n.tag_name {
            Some(t) => Some(t@),
            None => None,
        },
        attributes: attrs_view(n.attributes@),
        text_content: match n.text_content {
            Some(t) => Some(t@),
            None => None,
        },
        children: dom_views(n.children@),
        is_self_closing: n.is_self_closing,
        id: n.id,
    }
}

/// The values of a node list.
pub open spec fn dom_views(cs: Seq<DomNode>) -> Seq<SpecDomNode>
    decreases cs,
{
    if cs.len() == 0 {
        seq![]
    } else {
        seq![dom_view(cs[0])] + dom_views(cs.drop_first())
    }
}

/// A node list's values match it element by element.
pub proof fn lemma_dom_views_index(cs: Seq<DomNode>)
    ensures
        dom_views(cs).len() == cs.len(),
        forall|i: int| 0 <= i < cs.len() ==> #[trigger] dom_views(cs)[i] == dom_view(cs[i]),
    decreases cs.len(),
{
    if cs.len() > 0 {
        lemma_dom_views_index(cs.drop_first());
        assert forall|i: int| 0 <= i < cs.len() implies #[trigger] dom_views(cs)[i] == dom_view(
            cs[i],
        ) by {
            if i > 0 {
                assert(dom_views(cs)[i] == dom_views(cs.drop_first())[i - 1]);
                assert(cs.drop_first()[i - 1] == cs[i]);
            }
        }
    }
}

/// A 16-bit value as its two little-endian bytes.
pub open spec fn spec_le16(x: u16) -> Seq<u8> {
    seq![(x % 256) as u8, (x / 256) as u8]
}

/// A 32-bit value as its four little-endian bytes.
pub open spec fn spec_le32(x: u32) -> Seq<u8> {
    seq![
        (x % 256) as u8,
        ((x / 0x100) % 256) as u8,
        ((x / 0x10000) % 256) as u8,
        ((x / 0x1000000) % 256) as u8,
    ]
}

/// A 64-bit value as its eight little-endian bytes.
pub open spec fn spec_le64(x: u64) -> Seq<u8> {
    seq![
        (x % 256) as u8,
        ((x / 0x100) % 256) as u8,
        ((x / 0x10000) % 256) as u8,
        ((x / 0x1000000) % 256) as u8,
        ((x / 0x100000000) % 256) as u8,
        ((x / 0x10000000000) % 256) as u8,
        ((x / 0x1000000000000) % 256) as u8,
        ((x / 0x100000000000000) % 256) as u8,
    ]
}

/// A string on the wire: its byte length as a little-endian 16-bit
/// prefix, then its bytes.
pub open spec fn spec_write_string(t: Seq<char>) -> Seq<u8> {
    spec_le16(encode_utf8(t).len() as u16) + encode_utf8(t)
}

/// The byte of a node type tag.
pub open spec fn spec_type_byte(t: DomNodeType) -> u8 {
    match t {
        DomNodeType::Element => 0,
        DomNodeType::Text => 1,
        DomNodeType::Comment => 2,
        DomNodeType::Document => 3,
        DomNodeType::DocumentFragment => 4,
    }
}

/// Attribute pairs on the wire, each as two strings.
pub open spec fn spec_attrs_bytes(a: Seq<(Seq<char>, Seq<char>)>) -> Seq<u8>
    decreases a.len(),
{
    if a.len() == 0 {
        seq![]
    } else {
        spec_attrs_bytes(a.drop_last()) + spec_write_string(a.last().0) + spec_write_string(
            a.last().1,
        )
    }
}

/// Everything of a node's binary form before its children: the type
/// byte; the tag as a string, or one zero byte without one; the
/// attribute count and the attributes; the text as a string, or one zero
/// byte without one; the self-closing flag; a presence byte and,
/// present, the id.
pub open spec fn spec_node_head(m: SpecDomNode) -> Seq<u8> {
    seq![spec_type_byte(m.node_type)] + (match m.tag_name {
        Some(t) => spec_write_string(t),
        None => seq![0u8],
    }) + spec_le16(m.attributes.len() as u16) + spec_attrs_bytes(m.attributes) + (
    match m.text_content {
        Some(t) => spec_write_string(t),
        None => seq![0u8],
    }) + seq![
        if m.is_self_closing {
            1u8
        } else {
            0u8
        },
    ] + (match m.id {
        Some(id) => seq![1u8] + spec_le32(id),
        None => seq![0u8],
    })
}

/// A node on the wire: its head, the child count, then the children,
/// each in this same format.
pub open spec fn spec_serialize(m: SpecDomNode) -> Seq<u8>
    decreases m,
{
    spec_node_head(m) + spec_le32(m.children.len() as u32) + spec_children_bytes(m.children)
}

/// A node list on the wire, one node after another.
pub open spec fn spec_children_bytes(cs: Seq<SpecDomNode>) -> Seq<u8>
    decreases cs,
{
    if cs.len() == 0 {
        seq![]
    } else {
        spec_children_bytes(cs.drop_last()) + spec_serialize(cs.last())
    }
}

/// Append a 16-bit value, little-endian.
fn push_u16_le(out: &mut Vec<u8>, x: u16)
    ensures
        final(out)@ == old(out)@ + spec_le16(x),
{
    out.push((x % 256) as u8);
    out.push((x / 256) as u8);
    proof {
        assert(final(out)@ =~= old(out)@ + spec_le16(x));
    }
}

/// Append a 32-bit value, little-endian.
fn push_u32_le(out: &mut Vec<u8>, x: u32)
    ensures
        final(out)@ == old(out)@ + spec_le32(x),
{
    out.push((x % 256) as u8);
    out.push(((x / 0x100) % 256) as u8);
    out.push(((x / 0x10000) % 256) as u8);
    out.push(((x / 0x1000000) % 256) as u8);
    proof {
        assert(final(out)@ =~= old(out)@ + spec_le32(x));
    }
}

/// Append a 64-bit value, little-endian.
fn push_u64_le(out: &mut Vec<u8>, x: u64)
    ensures
        final(out)@ == old(out)@ + spec_le64(x),
{
    out.push((x % 256) as u8);
    out.push(((x / 0x100) % 256) as u8);
    out.push(((x / 0x10000) % 256) as u8);
    out.push(((x / 0x1000000) % 256) as u8);
    out.push(((x / 0x100000000) % 256) as u8);
    out.push(((x / 0x10000000000) % 256) as u8);
    out.push(((x / 0x1000000000000) % 256) as u8);
    out.push(((x / 0x100000000000000) % 256) as u8);
    proof {
        assert(final(out)@ =~= old(out)@ + spec_le64(x));
    }
}

/// Append a length-prefixed string; a byte length past the prefix's
/// range is written truncated, as the format's length field truncates it.
fn write_string(s: &str, out: &mut Vec<u8>)
    ensures
        final(out)@ == old(out)@ + spec_write_string(s@),
{
    let bytes: &[u8] = s.as_bytes();
    push_u16_le(out, bytes.len() as u16);
    out.extend_from_slice(bytes);
    proof {
        assert(final(out)@ =~= old(out)@ + spec_write_string(s@));
    }
}

/// The byte of a node type tag.
fn node_type_byte(t: DomNodeType) -> (r: u8)
    ensures
        r == spec_type_byte(t),
{
    match t {
        DomNodeType::Element => 0,
        DomNodeType::Text => 1,
        DomNodeType::Comment => 2,
        DomNodeType::Document => 3,
        DomNodeType::DocumentFragment => 4,
    }
}

/// Why a decode failed: a read past the buffer end, an unknown node-type
/// byte, a missing attribute name or value, or bytes that are not UTF-8.
#[derive(Debug, Clone, Copy, PartialEq, Eq, Structural)]
pub enum DomError {
    Malformed,
}

/// The 16-bit little-endian value at `i`.
pub open spec fn spec_le16_at(data: Seq<u8>, i: int) -> int {
    data[i] + 256 * data[i + 1]
}

/// The 32-bit little-endian value at `i`.
pub open spec fn spec_le32_at(data: Seq<u8>, i: int) -> int {
    data[i] + 0x100 * data[i + 1] + 0x10000 * data[i + 2] + 0x1000000 * data[i + 3]
}

/// A length-prefixed string read at `o`: within the option, `None` for a
/// zero length and the decoded text otherwise. The read fails past the
/// buffer end or on bytes that are not UTF-8.
pub open spec fn spec_read_string(data: Seq<u8>, o: int) -> Option<(Option<Seq<char>>, int)> {
    if o < 0 || o + 2 > data.len() {
        None
    } else {
        let l = spec_le16_at(data, o);
        if l == 0 {
            Some((None, o + 2))
        } else if o + 2 + l > data.len() {
            None
        } else if vstd::utf8::valid_utf8(data.subrange(o + 2, o + 2 + l)) {
            Some((Some(vstd::utf8::decode_utf8(data.subrange(o + 2, o + 2 + l))), o + 2 + l))
        } else {
            None
        }
    }
}

/// `count` attribute pairs read at `o`; an absent name or value fails.
pub open spec fn spec_parse_attrs(data: Seq<u8>, o: int, count: int) -> Option<
    (Seq<(Seq<char>, Seq<char>)>, int),
>
    decreases count,
{
    if count <= 0 {
        Some((seq![], o))
    } else {
        match spec_read_string(data, o) {
            Some((Some(k), o1)) => match spec_read_string(data, o1) {
                Some((Some(v), o2)) => match spec_parse_attrs(data, o2, count - 1) {
                    Some((rest, e)) => Some((seq![(k, v)] + rest, e)),
                    None => None,
                },
                _ => None,
            },
            _ => None,
        }
    }
}

/// The string codec's round trip: a nonempty string whose bytes fit the
/// length prefix reads back from its own written form, wherever that form
/// sits in a buffer, and the read stops just past its bytes.
pub proof fn lemma_string_round_trip(data: Seq<u8>, t: Seq<char>, o: int)
    requires
        1 <= encode_utf8(t).len() <= u16::MAX,
        0 <= o,
        o + spec_write_string(t).len() <= data.len(),
        data.subrange(o, o + spec_write_string(t).len()) == spec_write_string(t),
    ensures
        spec_read_string(data, o) == Some((Some(t), o + spec_write_string(t).len())),
{
    let b = encode_utf8(t);
    let w = spec_write_string(t);
    let l = b.len() as int;
    let seg = data.subrange(o, o + w.len());
    assert(data[o] == seg[0] && seg[0] == w[0]);
    assert(data[o + 1] == seg[1] && seg[1] == w[1]);
    assert(w[0] == ((l as u16) % 256) as u8 && w[1] == ((l as u16) / 256) as u8);
    assert(spec_le16_at(data, o) == l);
    assert(data.subrange(o + 2, o + 2 + l) =~= b) by {
        assert forall|k: int| 0 <= k < l implies data.subrange(o + 2, o + 2 + l)[k] == b[k] by {
            assert(data.subrange(o + 2, o + 2 + l)[k] == data[o + 2 + k]);
            assert(data[o + 2 + k] == seg[2 + k]);
            assert(seg[2 + k] == w[2 + k]);
            assert(w[2 + k] == b[k]);
        }
    }
    vstd::utf8::encode_utf8_valid_utf8(t);
    vstd::utf8::encode_utf8_decode_utf8(t);
}

/// The node type a tag byte stands for, if any.
pub open spec fn spec_type_of_byte(b: u8) -> Option<DomNodeType> {
    match b {
        0u8 => Some(DomNodeType::Element),
        1u8 => Some(DomNodeType::Text),
        2u8 => Some(DomNodeType::Comment),
        3u8 => Some(DomNodeType::Document),
        4u8 => Some(DomNodeType::DocumentFragment),
        _ => None,
    }
}

/// The node read at `o` and the offset just past it. The reader consumes
/// a tag string only for an element and a text string only for a text
/// node — exactly the fields it will use — so it accepts a different
/// byte layout than the writer emits for nodes that carry unused fields.
pub open spec fn spec_parse_node(data: Seq<u8>, o: int) -> Option<(SpecDomNode, int)>
    decreases data.len() - o, 0int,
{
    if o < 0 || o >= data.len() {
        None
    } else {
        match spec_type_of_byte(data[o]) {
            None => None,
            Some(nt) => {
                let tag_r = if nt == DomNodeType::Element {
                    spec_read_string(data, o + 1)
                } else {
                    Some((None, o + 1))
                };
                match tag_r {
                    None => None,
                    Some((tag, o1)) => if o1 + 2 > data.len() {
                        None
                    } else {
                        match spec_parse_attrs(data, o1 + 2, spec_le16_at(data, o1)) {
                            None => None,
                            Some((attrs, o2)) => {
                                let text_r = if nt == DomNodeType::Text {
                                    spec_read_string(data, o2)
                                } else {
                                    Some((None, o2))
                                };
                                match text_r {
                                    None => None,
                                    Some((text, o3)) => if o3 + 2 > data.len() {
                                        None
                                    } else {
                                        let sc = data[o3] != 0;
                                        let id_r: Option<(Option<u32>, int)> = if data[o3 + 1]
                                            != 0 {
                                            if o3 + 6 > data.len() {
                                                None
                                            } else {
                                                Some(
                                                    (
                                                        Some(spec_le32_at(data, o3 + 2) as u32),
                                                        o3 + 6,
                                                    ),
                                                )
                                            }
                                        } else {
                                            Some((None, o3 + 2))
                                        };
                                        match id_r {
                                            None => None,
                                            Some((id, o4)) => if o4 + 4 > data.len() {
                                                None
                                            } else {
                                                let o5 = o4 + 4;
                                                if o5 <= o {
                                                    None
                                                } else {
                                                    match spec_parse_children(
                                                        data,
                                                        o5,
                                                        spec_le32_at(data, o4),
                                                    ) {
                                                        None => None,
                                                        Some((children, e)) => Some(
                                                            (
                                                                SpecDomNode {
                                                                    node_type: nt,
                                                                    tag_name: tag,
                                                                    attributes: attrs,
                                                                    text_content: text,
                                                                    children,
                                                                    is_self_closing: sc,
                                                                    id,
                                                                },
                                                                e,
                                                            ),
                                                        ),
                                                    }
                                                }
                                            },
                                        }
                                    },
                                }
                            },
                        }
                    },
                }
            },
        }
    }
}

/// `count` nodes read one after another from `o`.
pub open spec fn spec_parse_children(data: Seq<u8>, o: int, count: int) -> Option<
    (Seq<SpecDomNode>, int),
>
    decreases data.len() - o, count,
{
    if count <= 0 {
        Some((seq![], o))
    } else {
        match spec_parse_node(data, o) {
            None => None,
            Some((n, o1)) => if o1 <= o || o1 > data.len() {
                None
            } else {
                match spec_parse_children(data, o1, count - 1) {
                    None => None,
                    Some((rest, e)) => Some((seq![n] + rest, e)),
                }
            },
        }
    }
}

/// The binary serializer and deserializer of node trees.
pub struct BinaryDomSerializer;

impl BinaryDomSerializer {
    /// Append everything of the node's binary form before its children.
    #[verifier::rlimit(100)]
    fn serialize_head(node: &DomNode, out: &mut Vec<u8>)
        ensures
            final(out)@ == old(out)@ + spec_node_head(dom_view(*node)),
    {
        let ghost m = dom_view(*node);
        out.push(node_type_byte(node.node_type));
        match &node.tag_name {
            Some(t) => write_string(t.as_str(), out),
            None => out.push(0),
        }
        push_u16_le(out, node.attributes.len() as u16);
        let ghost after_count = out@;
        let mut i: usize = 0;
        while i < node.attributes.len()
            invariant
                i <= node.attributes@.len(),
                m == dom_view(*node),
                out@ == after_count + spec_attrs_bytes(attrs_view(node.attributes@).subrange(0, i as int)),
            decreases node.attributes@.len() - i,
        {
            let ghost av = attrs_view(node.attributes@);
            proof {
                assert(av[i as int] == (node.attributes@[i as int].0@, node.attributes@[i as int].1@));
                assert(av.subrange(0, i + 1).drop_last() =~= av.subrange(0, i as int));
                assert(av.subrange(0, i + 1).last() == av[i as int]);
                assert(m.attributes == av);
            }
            let pair = &node.attributes[i];
            write_string(pair.0.as_str(), out);
            write_string(pair.1.as_str(), out);
            proof {
                assert(out@ =~= after_count + spec_attrs_bytes(av.subrange(0, i + 1)));
            }
            i = i + 1;
        }
        proof {
            assert(attrs_view(node.attributes@).subrange(
                0,
                node.attributes@.len() as int,
            ) =~= attrs_view(node.attributes@));
        }
        match &node.text_content {
            Some(t) => write_string(t.as_str(), out),
            None => out.push(0),
        }
        if node.is_self_closing {
            out.push(1);
        } else {
            out.push(0);
        }
        match node.id {
            Some(id) => {
                out.push(1);
                push_u32_le(out, id);
            },
            None => out.push(0),
        }
        proof {
            assert(final(out)@ =~= old(out)@ + spec_node_head(m));
        }
    }

    /// Append the node's binary form: exactly `spec_serialize` of its
    /// value.
    pub fn serialize(node: &DomNode, out: &mut Vec<u8>)
        ensures
            final(out)@ == old(out)@ + spec_serialize(dom_view(*node)),
        decreases *node,
    {
        let ghost m = dom_view(*node);
        Self::serialize_head(node, out);
        push_u32_le(out, node.children.len() as u32);
        let ghost before_children = out@;
        proof {
            lemma_dom_views_index(node.children@);
        }
        let mut j: usize = 0;
        while j < node.children.len()
            invariant
                j <= node.children@.len(),
                m == dom_view(*node),
                out@ == before_children + spec_children_bytes(
                    dom_views(node.children@).subrange(0, j as int),
                ),
            decreases node.children@.len() - j, 0nat,
        {
            let ghost cv = dom_views(node.children@);
            proof {
                lemma_dom_views_index(node.children@);
                assert(cv.subrange(0, j + 1).drop_last() =~= cv.subrange(0, j as int));
                assert(cv.subrange(0, j + 1).last() == cv[j as int]);
                assert(m.children == cv);
                assert(decreases_to!(*node => node.children@[j as int]));
            }
            Self::serialize(&node.children[j], out);
            proof {
                assert(out@ =~= before_children + spec_children_bytes(cv.subrange(0, j + 1)));
            }
            j = j + 1;
        }
        proof {
            assert(dom_views(node.children@).subrange(
                0,
                node.children@.len() as int,
            ) =~= dom_views(node.children@));
            assert(final(out)@ =~= old(out)@ + spec_serialize(m));
        }
    }

    /// Decode one node from the front of the buffer: exactly the value
    /// `spec_parse_node` reads there, or `Malformed` when it reads none.
    pub fn deserialize(data: &[u8]) -> (r: Result<DomNode, DomError>)
        ensures
            match spec_parse_node(data@, 0) {
                Some((m, _)) => r is Ok && dom_view(r->Ok_0) == m,
                None => r == Err::<DomNode, DomError>(DomError::Malformed),
            },
    {
        match parse_node_at(data, 0) {
            Ok((n, _)) => Ok(n),
            Err(e) => Err(e),
        }
    }
}

/// The string of an optional owned string.
pub open spec fn opt_str_view(x: Option<String>) -> Option<Seq<char>> {
    match x {
        Some(s) => Some(s@),
        None => None,
    }
}

/// The 16-bit little-endian value at `i`.
fn read_le16_at(data: &[u8], i: usize) -> (r: usize)
    requires
        i + 2 <= data@.len(),
    ensures
        r == spec_le16_at(data@, i as int),
        r < 0x10000,
{
    (data[i] as usize) + 256 * (data[i + 1] as usize)
}

/// The 32-bit little-endian value at `i`.
fn read_le32_at(data: &[u8], i: usize) -> (r: u64)
    requires
        i + 4 <= data@.len(),
    ensures
        r == spec_le32_at(data@, i as int),
        r < 0x100000000,
{
    (data[i] as u64) + 0x100 * (data[i + 1] as u64) + 0x10000 * (data[i + 2] as u64) + 0x1000000
        * (data[i + 3] as u64)
}

/// Read a length-prefixed string at `o`.
fn read_string_at(data: &[u8], o: usize) -> (r: Result<(Option<String>, usize), DomError>)
    ensures
        match spec_read_string(data@, o as int) {
            Some((sv, e)) => r is Ok && opt_str_view(r->Ok_0.0) == sv && r->Ok_0.1 == e && o
                < e <= data@.len(),
            None => r == Err::<(Option<String>, usize), DomError>(DomError::Malformed),
        },
{
    if data.len() < 2 || o > data.len() - 2 {
        return Err(DomError::Malformed);
    }
    let l = read_le16_at(data, o);
    if l == 0 {
        return Ok((None, o + 2));
    }
    if l > data.len() - o - 2 {
        return Err(DomError::Malformed);
    }
    let mut bytes: Vec<u8> = Vec::new();
    let end = o + 2 + l;
    let mut k = o + 2;
    while k < end
        invariant
            o + 2 <= k <= end,
            end == o + 2 + l,
            end <= data@.len(),
            bytes@ == data@.subrange(o as int + 2, k as int),
        decreases end - k,
    {
        bytes.push(data[k]);
        proof {
            assert(bytes@ =~= data@.subrange(o as int + 2, k + 1));
        }
        k = k + 1;
    }
    match string_from_utf8(bytes) {
        Some(st) => Ok((Some(st), o + 2 + l)),
        None => Err(DomError::Malformed),
    }
}

/// Read `count` attribute pairs at `o`.
fn parse_attrs_at(data: &[u8], o: usize, count: usize) -> (r: Result<
    (Vec<(String, String)>, usize),
    DomError,
>)
    requires
        o <= data@.len(),
    ensures
        match spec_parse_attrs(data@, o as int, count as int) {
            Some((av, e)) => r is Ok && attrs_view(r->Ok_0.0@) == av && r->Ok_0.1 == e && o
                <= r->Ok_0.1 <= data@.len(),
            None => r == Err::<(Vec<(String, String)>, usize), DomError>(DomError::Malformed),
        },
{
    let mut out: Vec<(String, String)> = Vec::new();
    let mut cur = o;
    let mut i: usize = 0;
    proof {
        assert(attrs_view(out@) =~= Seq::<(Seq<char>, Seq<char>)>::empty());
    }
    while i < count
        invariant
            i <= count,
            o <= cur <= data@.len(),
            spec_parse_attrs(data@, o as int, count as int) == (
            match spec_parse_attrs(data@, cur as int, count as int - i as int) {
                Some((rest, e)) => Some((attrs_view(out@) + rest, e)),
                None => None::<(Seq<(Seq<char>, Seq<char>)>, int)>,
            }),
        decreases count - i,
    {
        let (k, o1) = match read_string_at(data, cur) {
            Ok(v) => v,
            Err(e) => {
                return Err(e);
            },
        };
        let key = match k {
            Some(key) => key,
            None => {
                return Err(DomError::Malformed);
            },
        };
        let (v, o2) = match read_string_at(data, o1) {
            Ok(v) => v,
            Err(e) => {
                return Err(e);
            },
        };
        let value = match v {
            Some(value) => value,
            None => {
                return Err(DomError::Malformed);
            },
        };
        proof {
            let rest_opt = spec_parse_attrs(data@, o2 as int, count as int - i as int - 1);
            if rest_opt is Some {
                assert(attrs_view(out@.push((key, value))) =~= attrs_view(out@).push(
                    (key@, value@),
                ));
                assert((attrs_view(out@) + seq![(key@, value@)]) + rest_opt->Some_0.0
                    =~= attrs_view(out@) + (seq![(key@, value@)] + rest_opt->Some_0.0));
                assert(attrs_view(out@).push((key@, value@)) =~= attrs_view(out@) + seq![
                    (key@, value@),
                ]);
            }
        }
        out.push((key, value));
        cur = o2;
        i = i + 1;
    }
    proof {
        assert(attrs_view(out@) + Seq::<(Seq<char>, Seq<char>)>::empty() =~= attrs_view(out@));
    }
    Ok((out, cur))
}

/// Read the node at `o` and the offset just past it.
fn parse_node_at(data: &[u8], o: usize) -> (r: Result<(DomNode, usize), DomError>)
    ensures
        match spec_parse_node(data@, o as int) {
            Some((m, e)) => r is Ok && dom_view(r->Ok_0.0) == m && r->Ok_0.1 == e && o < e
                <= data@.len(),
            None => r == Err::<(DomNode, usize), DomError>(DomError::Malformed),
        },
    decreases data@.len() - o, 0int,
{
    if o >= data.len() {
        return Err(DomError::Malformed);
    }
    let node_type = match DomNodeType::from_byte(data[o]) {
        Some(t) => t,
        None => {
            return Err(DomError::Malformed);
        },
    };
    let (tag_name, o1) = if matches!(node_type, DomNodeType::Element) {
        match read_string_at(data, o + 1) {
            Ok(v) => v,
            Err(e) => {
                return Err(e);
            },
        }
    } else {
        (None, o + 1)
    };
    if data.len() < 2 || o1 > data.len() - 2 {
        return Err(DomError::Malformed);
    }
    let attr_count = read_le16_at(data, o1);
    let (attributes, o2) = match parse_attrs_at(data, o1 + 2, attr_count) {
        Ok(v) => v,
        Err(e) => {
            return Err(e);
        },
    };
    let (text_content, o3) = if matches!(node_type, DomNodeType::Text) {
        match read_string_at(data, o2) {
            Ok(v) => v,
            Err(e) => {
                return Err(e);
            },
        }
    } else {
        (None, o2)
    };
    if data.len() < 2 || o3 > data.len() - 2 {
        return Err(DomError::Malformed);
    }
    let is_self_closing = data[o3] != 0;
    let (id, o4) = if data[o3 + 1] != 0 {
        if data.len() < 6 || o3 > data.len() - 6 {
            return Err(DomError::Malformed);
        }
        (Some(read_le32_at(data, o3 + 2) as u32), o3 + 6)
    } else {
        (None, o3 + 2)
    };
    if data.len() < 4 || o4 > data.len() - 4 {
        return Err(DomError::Malformed);
    }
    let child_count = read_le32_at(data, o4);
    let o5 = o4 + 4;
    proof {
        assert(o < o5 <= data@.len());
    }
    let (children, e) = match parse_children_at(data, o5, child_count as usize) {
        Ok(v) => v,
        Err(e) => {
            return Err(e);
        },
    };
    let node = DomNode {
        node_type,
        tag_name,
        attributes,
        text_content,
        children,
        is_self_closing,
        id,
    };
    proof {
        let m = spec_parse_node(data@, o as int)->Some_0.0;
        assert(dom_view(node) =~= m);
    }
    Ok((node, e))
}

/// Read `count` nodes one after another from `o`.
fn parse_children_at(data: &[u8], o: usize, count: usize) -> (r: Result<
    (Vec<DomNode>, usize),
    DomError,
>)
    requires
        o <= data@.len(),
    ensures
        match spec_parse_children(data@, o as int, count as int) {
            Some((cs, e)) => r is Ok && dom_views(r->Ok_0.0@) == cs && r->Ok_0.1 == e && o
                <= r->Ok_0.1 <= data@.len(),
            None => r == Err::<(Vec<DomNode>, usize), DomError>(DomError::Malformed),
        },
    decreases data@.len() - o, count,
{
    let mut out: Vec<DomNode> = Vec::new();
    let mut cur = o;
    let mut i: usize = 0;
    proof {
        assert(dom_views(out@) =~= Seq::<SpecDomNode>::empty());
    }
    while i < count
        invariant
            i <= count,
            cur <= data@.len(),
            i == 0 ==> cur == o,
            i > 0 ==> cur > o,
            spec_parse_children(data@, o as int, count as int) == (
            match spec_parse_children(data@, cur as int, count as int - i as int) {
                Some((rest, e)) => Some((dom_views(out@) + rest, e)),
                None => None::<(Seq<SpecDomNode>, int)>,
            }),
        decreases count - i,
    {
        let (n, nxt) = match parse_node_at(data, cur) {
            Ok(v) => v,
            Err(e) => {
                return Err(e);
            },
        };
        proof {
            let rest_opt = spec_parse_children(data@, nxt as int, count as int - i as int - 1);
            let nv = dom_view(n);
            lemma_dom_views_index(out@.push(n));
            lemma_dom_views_index(out@);
            if rest_opt is Some {
                assert(dom_views(out@.push(n)) =~= dom_views(out@).push(nv));
                assert(dom_views(out@).push(nv) =~= dom_views(out@) + seq![nv]);
                assert((dom_views(out@) + seq![nv]) + rest_opt->Some_0.0 =~= dom_views(out@) + (
                seq![nv] + rest_opt->Some_0.0));
            }
        }
        out.push(n);
        cur = nxt;
        i = i + 1;
    }
    proof {
        assert(dom_views(out@) + Seq::<SpecDomNode>::empty() =~= dom_views(out@));
    }
    Ok((out, cur))
}

impl DomNodeType {
    /// The node type a tag byte stands for.
    pub fn from_byte(b: u8) -> (r: Option<DomNodeType>)
        ensures
            r == spec_type_of_byte(b),
    {
        match b {
            0 => Some(DomNodeType::Element),
            1 => Some(DomNodeType::Text),
            2 => Some(DomNodeType::Comment),
            3 => Some(DomNodeType::Document),
            4 => Some(DomNodeType::DocumentFragment),
            _ => None,
        }
    }
}

/// A copy of an attribute list with the same values.
fn clone_attrs(a: &Vec<(String, String)>) -> (c: Vec<(String, String)>)
    ensures
        attrs_view(c@) == attrs_view(a@),
{
    let mut out: Vec<(String, String)> = Vec::new();
    let mut i: usize = 0;
    while i < a.len()
        invariant
            i <= a@.len(),
            attrs_view(out@) == attrs_view(a@.subrange(0, i as int)),
        decreases a@.len() - i,
    {
        let pair = &a[i];
        let ghost prev = out@;
        out.push((pair.0.clone(), pair.1.clone()));
        proof {
            assert(attrs_view(out@) =~= attrs_view(prev).push((a@[i as int].0@, a@[i as int].1@)));
            assert(attrs_view(a@.subrange(0, i + 1)) =~= attrs_view(a@.subrange(0, i as int)).push(
                (a@[i as int].0@, a@[i as int].1@),
            ));
        }
        i = i + 1;
    }
    proof {
        assert(a@.subrange(0, a@.len() as int) =~= a@);
    }
    out
}

/// A copy of a node with the same value.
pub fn clone_dom_node(n: &DomNode) -> (c: DomNode)
    ensures
        dom_view(c) == dom_view(*n),
    decreases *n,
{
    let tag_name = match &n.tag_name {
        Some(t) => Some(t.clone()),
        None => None,
    };
    let text_content = match &n.text_content {
        Some(t) => Some(t.clone()),
        None => None,
    };
    let mut children: Vec<DomNode> = Vec::new();
    proof {
        lemma_dom_views_index(n.children@);
    }
    let mut i: usize = 0;
    while i < n.children.len()
        invariant
            i <= n.children@.len(),
            dom_views(children@) == dom_views(n.children@).subrange(0, i as int),
        decreases n.children@.len() - i, 0nat,
    {
        proof {
            lemma_dom_views_index(n.children@);
            assert(decreases_to!(*n => n.children@[i as int]));
        }
        let c = clone_dom_node(&n.children[i]);
        let ghost prev = children@;
        children.push(c);
        proof {
            lemma_dom_views_index(prev.push(c));
            lemma_dom_views_index(prev);
            assert(dom_views(children@) =~= dom_views(n.children@).subrange(0, i + 1));
        }
        i = i + 1;
    }
    let c = DomNode {
        node_type: n.node_type,
        tag_name,
        attributes: clone_attrs(&n.attributes),
        text_content,
        children,
        is_self_closing: n.is_self_closing,
        id: n.id,
    };
    proof {
        assert(dom_views(n.children@).subrange(0, n.children@.len() as int) =~= dom_views(
            n.children@,
        ));
        assert(dom_view(c) =~= dom_view(*n));
    }
    c
}

impl Clone for DomNode {
    /// A copy with the same value.
    fn clone(&self) -> (c: Self)
        ensures
            dom_view(c) == dom_view(*self),
    {
        clone_dom_node(self)
    }
}

impl Default for DomNode {
    /// An empty element node.
    fn default() -> (r: DomNode)
        ensures
            dom_view(r) == (SpecDomNode {
                node_type: DomNodeType::Element,
                tag_name: None,
                attributes: Seq::empty(),
                text_content: None,
                children: Seq::empty(),
                is_self_closing: false,
                id: None,
            }),
    {
        let r = DomNode {
            node_type: DomNodeType::Element,
            tag_name: None,
            attributes: Vec::new(),
            text_content: None,
            children: Vec::new(),
            is_self_closing: false,
            id: None,
        };
        proof {
            assert(dom_view(r) =~= (SpecDomNode {
                node_type: DomNodeType::Element,
                tag_name: None,
                attributes: Seq::empty(),
                text_content: None,
                children: Seq::empty(),
                is_self_closing: false,
                id: None,
            }));
        }
        r
    }
}

impl DomNode {
    /// A fresh element node with a tag and nothing else.
    pub fn new_element(tag_name: &str) -> (r: DomNode)
        ensures
            dom_view(r) == (SpecDomNode {
                node_type: DomNodeType::Element,
                tag_name: Some(tag_name@),
                attributes: Seq::empty(),
                text_content: None,
                children: Seq::empty(),
                is_self_closing: false,
                id: None,
            }),
    {
        let r = DomNode {
            node_type: DomNodeType::Element,
            tag_name: Some(tag_name.to_owned()),
            attributes: Vec::new(),
            text_content: None,
            children: Vec::new(),
            is_self_closing: false,
            id: None,
        };
        proof {
            assert(dom_view(r) =~= (SpecDomNode {
                node_type: DomNodeType::Element,
                tag_name: Some(tag_name@),
                attributes: Seq::empty(),
                text_content: None,
                children: Seq::empty(),
                is_self_closing: false,
                id: None,
            }));
        }
        r
    }

    /// A fresh text node with content and nothing else.
    pub fn new_text(content: &str) -> (r: DomNode)
        ensures
            dom_view(r) == (SpecDomNode {
                node_type: DomNodeType::Text,
                tag_name: None,
                attributes: Seq::empty(),
                text_content: Some(content@),
                children: Seq::empty(),
                is_self_closing: false,
                id: None,
            }),
    {
        let r = DomNode {
            node_type: DomNodeType::Text,
            tag_name: None,
            attributes: Vec::new(),
            text_content: Some(content.to_owned()),
            children: Vec::new(),
            is_self_closing: false,
            id: None,
        };
        proof {
            assert(dom_view(r) =~= (SpecDomNode {
                node_type: DomNodeType::Text,
                tag_name: None,
                attributes: Seq::empty(),
                text_content: Some(content@),
                children: Seq::empty(),
                is_self_closing: false,
                id: None,
            }));
        }
        r
    }

    /// Append an attribute.
    pub fn add_attribute(&mut self, name: &str, value: &str)
        ensures
            dom_view(*final(self)) == (SpecDomNode {
                attributes: dom_view(*old(self)).attributes.push((name@, value@)),
                ..dom_view(*old(self))
            }),
    {
        let ghost prev = self.attributes@;
        self.attributes.push((name.to_owned(), value.to_owned()));
        proof {
            assert(attrs_view(self.attributes@) =~= attrs_view(prev).push((name@, value@)));
            assert(dom_view(*self) =~= (SpecDomNode {
                attributes: attrs_view(prev).push((name@, value@)),
                ..dom_view(*old(self))
            }));
        }
    }

    /// Append a child node.
    pub fn add_child(&mut self, child: DomNode)
        ensures
            dom_view(*final(self)) == (SpecDomNode {
                children: dom_view(*old(self)).children.push(dom_view(child)),
                ..dom_view(*old(self))
            }),
    {
        let ghost prev = self.children@;
        let ghost cv = dom_view(child);
        self.children.push(child);
        proof {
            lemma_dom_views_index(prev);
            lemma_dom_views_index(self.children@);
            assert(dom_views(self.children@) =~= dom_views(prev).push(cv));
            assert(dom_view(*self) =~= (SpecDomNode {
                children: dom_views(prev).push(cv),
                ..dom_view(*old(self))
            }));
        }
    }

    /// Give the node a unique id for diffing.
    pub fn set_id(&mut self, id: u32)
        ensures
            dom_view(*final(self)) == (SpecDomNode { id: Some(id), ..dom_view(*old(self)) }),
    {
        self.id = Some(id);
        proof {
            assert(dom_view(*self) =~= (SpecDomNode { id: Some(id), ..dom_view(*old(self)) }));
        }
    }
}

/// How many nodes a tree holds, the root included.
pub open spec fn spec_count(m: SpecDomNode) -> int
    decreases m,
{
    1 + spec_count_list(m.children)
}

/// How many nodes a forest holds.
pub open spec fn spec_count_list(cs: Seq<SpecDomNode>) -> int
    decreases cs,
{
    if cs.len() == 0 {
        0
    } else {
        spec_count_list(cs.drop_last()) + spec_count(cs.last())
    }
}

/// A tree holds at least its root.
pub proof fn lemma_count_pos(m: SpecDomNode)
    ensures
        spec_count(m) >= 1,
    decreases m,
{
    lemma_count_list_nonneg(m.children);
}

/// A forest holds no negative number of nodes.
pub proof fn lemma_count_list_nonneg(cs: Seq<SpecDomNode>)
    ensures
        spec_count_list(cs) >= 0,
    decreases cs,
{
    if cs.len() > 0 {
        lemma_count_list_nonneg(cs.drop_last());
        lemma_count_pos(cs.last());
    }
}

/// Concatenation splits the count.
pub proof fn lemma_count_list_concat(a: Seq<SpecDomNode>, b: Seq<SpecDomNode>)
    ensures
        spec_count_list(a + b) == spec_count_list(a) + spec_count_list(b),
    decreases b.len(),
{
    if b.len() == 0 {
        assert(a + b =~= a);
    } else {
        assert((a + b).drop_last() =~= a + b.drop_last());
        assert((a + b).last() == b.last());
        lemma_count_list_concat(a, b.drop_last());
    }
}

/// The snapshot header bytes, the ASCII of `BIOSURF-DOM`.
pub open spec fn spec_snapshot_header() -> Seq<u8> {
    seq![66u8, 73u8, 79u8, 83u8, 85u8, 82u8, 70u8, 45u8, 68u8, 79u8, 77u8]
}

/// A snapshot on the wire: the header, the version, the timestamp, the
/// node count, then the root node.
pub open spec fn spec_snapshot_bytes(s: DomSnapshot) -> Seq<u8> {
    spec_snapshot_header() + spec_le32(s.version) + spec_le64(s.timestamp) + spec_le32(
        s.node_count,
    ) + spec_serialize(dom_view(s.root))
}

/// The 64-bit little-endian value at `i`.
pub open spec fn spec_le64_at(data: Seq<u8>, i: int) -> int {
    data[i] + 0x100 * data[i + 1] + 0x10000 * data[i + 2] + 0x1000000 * data[i + 3] + 0x100000000
        * data[i + 4] + 0x10000000000 * data[i + 5] + 0x1000000000000 * data[i + 6]
        + 0x100000000000000 * data[i + 7]
}

/// The fields a snapshot buffer decodes to: version, timestamp, node
/// count, and the root's value.
pub open spec fn spec_parse_snapshot(data: Seq<u8>) -> Option<(u32, u64, u32, SpecDomNode)> {
    if data.len() < 27 {
        None
    } else if data.subrange(0, 11) != spec_snapshot_header() {
        None
    } else {
        match spec_parse_node(data, 27) {
            None => None,
            Some((m, _)) => Some(
                (
                    spec_le32_at(data, 11) as u32,
                    spec_le64_at(data, 15) as u64,
                    spec_le32_at(data, 23) as u32,
                    m,
                ),
            ),
        }
    }
}

/// A node tree under a header: its version, a timestamp, the node count
/// and the tree's byte size.
#[derive(Debug)]
pub struct DomSnapshot {
    pub root: DomNode,
    pub timestamp: u64,
    pub version: u32,
    pub node_count: u32,
    pub size_in_bytes: u32,
}

impl Clone for DomSnapshot {
    /// A copy with the same value.
    fn clone(&self) -> (c: Self)
        ensures
            dom_view(c.root) == dom_view(self.root),
            c.timestamp == self.timestamp,
            c.version == self.version,
            c.node_count == self.node_count,
            c.size_in_bytes == self.size_in_bytes,
    {
        DomSnapshot {
            root: clone_dom_node(&self.root),
            timestamp: self.timestamp,
            version: self.version,
            node_count: self.node_count,
            size_in_bytes: self.size_in_bytes,
        }
    }
}

/// The 64-bit little-endian value at `i`.
fn read_le64_at(data: &[u8], i: usize) -> (r: u64)
    requires
        i + 8 <= data@.len(),
    ensures
        r == spec_le64_at(data@, i as int),
{
    (data[i] as u64) + 0x100 * (data[i + 1] as u64) + 0x10000 * (data[i + 2] as u64) + 0x1000000
        * (data[i + 3] as u64) + 0x100000000 * (data[i + 4] as u64) + 0x10000000000 * (data[i
        + 5] as u64) + 0x1000000000000 * (data[i + 6] as u64) + 0x100000000000000 * (data[i
        + 7] as u64)
}

impl DomSnapshot {
    /// Count the nodes of a tree, the root included.
    fn count_nodes(node: &DomNode) -> (c: u32)
        requires
            spec_count(dom_view(*node)) <= u32::MAX,
        ensures
            c == spec_count(dom_view(*node)),
        decreases *node,
    {
        let ghost m = dom_view(*node);
        let ghost cv = dom_views(node.children@);
        let mut c: u32 = 1;
        proof {
            lemma_dom_views_index(node.children@);
            assert(cv.subrange(0, 0) =~= Seq::<SpecDomNode>::empty());
        }
        let mut i: usize = 0;
        while i < node.children.len()
            invariant
                i <= node.children@.len(),
                m == dom_view(*node),
                cv == dom_views(node.children@),
                spec_count(m) <= u32::MAX,
                c == 1 + spec_count_list(cv.subrange(0, i as int)),
            decreases node.children@.len() - i, 0nat,
        {
            proof {
                lemma_dom_views_index(node.children@);
                assert(decreases_to!(*node => node.children@[i as int]));
                assert(cv =~= cv.subrange(0, i + 1) + cv.subrange(i + 1, cv.len() as int));
                assert(cv.subrange(0, i + 1).drop_last() =~= cv.subrange(0, i as int));
                assert(cv.subrange(0, i + 1).last() == cv[i as int]);
                lemma_count_list_concat(cv.subrange(0, i + 1), cv.subrange(i + 1, cv.len() as int));
                lemma_count_list_nonneg(cv.subrange(i + 1, cv.len() as int));
                lemma_count_list_nonneg(cv.subrange(0, i as int));
                lemma_count_pos(cv[i as int]);
            }
            let sub = Self::count_nodes(&node.children[i]);
            c = c + sub;
            i = i + 1;
        }
        proof {
            assert(cv.subrange(0, cv.len() as int) =~= cv);
        }
        c
    }

    /// A snapshot of a tree: the node count and serialized size are
    /// computed, the timestamp and version start at zero.
    pub fn new(root: DomNode) -> (r: DomSnapshot)
        requires
            spec_count(dom_view(root)) <= u32::MAX,
        ensures
            dom_view(r.root) == dom_view(root),
            r.timestamp == 0,
            r.version == 0,
            r.node_count == spec_count(dom_view(root)),
            r.size_in_bytes == spec_serialize(dom_view(root)).len() as u32,
    {
        let node_count = Self::count_nodes(&root);
        let mut buffer: Vec<u8> = Vec::new();
        BinaryDomSerializer::serialize(&root, &mut buffer);
        DomSnapshot {
            root,
            timestamp: 0,
            version: 0,
            node_count,
            size_in_bytes: buffer.len() as u32,
        }
    }

    /// Append the snapshot's binary form: exactly `spec_snapshot_bytes`.
    pub fn serialize(&self, out: &mut Vec<u8>)
        ensures
            final(out)@ == old(out)@ + spec_snapshot_bytes(*self),
    {
        out.push(66);
        out.push(73);
        out.push(79);
        out.push(83);
        out.push(85);
        out.push(82);
        out.push(70);
        out.push(45);
        out.push(68);
        out.push(79);
        out.push(77);
        proof {
            assert(out@ =~= old(out)@ + spec_snapshot_header());
        }
        push_u32_le(out, self.version);
        push_u64_le(out, self.timestamp);
        push_u32_le(out, self.node_count);
        BinaryDomSerializer::serialize(&self.root, out);
        proof {
            assert(final(out)@ =~= old(out)@ + spec_snapshot_bytes(*self));
        }
    }

    /// Decode a snapshot: exactly the fields `spec_parse_snapshot` reads,
    /// with the size recomputed from the decoded root's serialization.
    pub fn deserialize(data: &[u8]) -> (r: Result<DomSnapshot, DomError>)
        ensures
            match spec_parse_snapshot(data@) {
                Some((v, ts, nc, m)) => r is Ok && r->Ok_0.version == v && r->Ok_0.timestamp == ts
                    && r->Ok_0.node_count == nc && dom_view(r->Ok_0.root) == m
                    && r->Ok_0.size_in_bytes == spec_serialize(m).len() as u32,
                None => r == Err::<DomSnapshot, DomError>(DomError::Malformed),
            },
    {
        if data.len() < 27 {
            return Err(DomError::Malformed);
        }
        let expected: [u8; 11] = [66, 73, 79, 83, 85, 82, 70, 45, 68, 79, 77];
        let mut i: usize = 0;
        while i < 11
            invariant
                i <= 11,
                data@.len() >= 27,
                expected@ == spec_snapshot_header(),
                forall|j: int| 0 <= j < i ==> data@[j] == spec_snapshot_header()[j],
            decreases 11 - i,
        {
            if data[i] != expected[i] {
                proof {
                    assert(data@.subrange(0, 11)[i as int] != spec_snapshot_header()[i as int]);
                }
                return Err(DomError::Malformed);
            }
            i = i + 1;
        }
        proof {
            assert(data@.subrange(0, 11) =~= spec_snapshot_header());
        }
        let version = read_le32_at(data, 11) as u32;
        let timestamp = read_le64_at(data, 15);
        let node_count = read_le32_at(data, 23) as u32;
        let (root, _) = match parse_node_at(data, 27) {
            Ok(v) => v,
            Err(e) => {
                return Err(e);
            },
        };
        let mut buffer: Vec<u8> = Vec::new();
        BinaryDomSerializer::serialize(&root, &mut buffer);
        Ok(
            DomSnapshot {
                root,
                timestamp,
                version,
                node_count,
                size_in_bytes: buffer.len() as u32,
            },
        )
    }
}

/// One step of an incremental change between two trees.
#[derive(Debug)]
pub enum DomDiffOperation {
    InsertNode { index: usize, node: DomNode },
    UpdateNode { index: usize, changes: DomChanges },
    DeleteNode { index: usize },
    MoveNode { from_index: usize, to_index: usize },
    UpdateText { index: usize, new_text: String },
}

/// What changed on one node: attributes that appeared, disappeared or
/// changed value, and the changes among its children.
#[derive(Debug)]
pub struct DomChanges {
    pub added_attributes: Vec<(String, String)>,
    pub removed_attributes: Vec<String>,
    pub updated_attributes: Vec<(String, String)>,
    pub children_changes: Vec<DomDiffOperation>,
}

impl Default for DomChanges {
    /// No changes at all.
    fn default() -> (r: DomChanges)
        ensures
            r.added_attributes@.len() == 0,
            r.removed_attributes@.len() == 0,
            r.updated_attributes@.len() == 0,
            r.children_changes@.len() == 0,
    {
        DomChanges {
            added_attributes: Vec::new(),
            removed_attributes: Vec::new(),
            updated_attributes: Vec::new(),
            children_changes: Vec::new(),
        }
    }
}

/// The strings of a name list.
pub open spec fn strs_view(v: Seq<String>) -> Seq<Seq<char>> {
    v.map_values(|s: String| s@)
}

/// The value under a name, first match winning.
pub open spec fn spec_attr_get(attrs: Seq<(Seq<char>, Seq<char>)>, key: Seq<char>) -> Option<
    Seq<char>,
>
    decreases attrs.len(),
{
    if attrs.len() == 0 {
        None
    } else if attrs[0].0 == key {
        Some(attrs[0].1)
    } else {
        spec_attr_get(attrs.drop_first(), key)
    }
}

/// A scan that saw other names before `i` and this name (or the end) at
/// `i` has found the attribute.
proof fn lemma_attr_get_is(attrs: Seq<(Seq<char>, Seq<char>)>, key: Seq<char>, i: int)
    requires
        0 <= i <= attrs.len(),
        forall|j: int| 0 <= j < i ==> (#[trigger] attrs[j]).0 != key,
        i == attrs.len() || attrs[i].0 == key,
    ensures
        spec_attr_get(attrs, key) == if i == attrs.len() {
            None::<Seq<char>>
        } else {
            Some(attrs[i].1)
        },
    decreases i,
{
    if attrs.len() > 0 && i > 0 {
        lemma_attr_get_is(attrs.drop_first(), key, i - 1);
    }
}

/// The value under a name, first match winning.
fn attr_get<'a>(attrs: &'a Vec<(String, String)>, key: &str) -> (r: Option<&'a String>)
    ensures
        match r {
            Some(v) => spec_attr_get(attrs_view(attrs@), key@) == Some(v@),
            None => spec_attr_get(attrs_view(attrs@), key@) is None,
        },
{
    let ghost av = attrs_view(attrs@);
    let mut i: usize = 0;
    while i < attrs.len()
        invariant
            i <= attrs@.len(),
            av == attrs_view(attrs@),
            forall|j: int| 0 <= j < i ==> (#[trigger] av[j]).0 != key@,
        decreases attrs@.len() - i,
    {
        proof {
            assert(av[i as int] == (attrs@[i as int].0@, attrs@[i as int].1@));
        }
        if str_equal(attrs[i].0.as_str(), key) {
            proof {
                lemma_attr_get_is(av, key@, i as int);
            }
            return Some(&attrs[i].1);
        }
        i = i + 1;
    }
    proof {
        lemma_attr_get_is(av, key@, attrs@.len() as int);
    }
    None
}

/// Whether two string slices hold the same characters.
fn str_equal(a: &str, b: &str) -> (r: bool)
    ensures
        r == (a@ == b@),
{
    let aa = a.to_owned();
    let bb = b.to_owned();
    aa.eq(&bb)
}

/// Whether two optional strings hold the same characters.
fn opt_string_equal(a: &Option<String>, b: &Option<String>) -> (r: bool)
    ensures
        r == (opt_str_view(*a) == opt_str_view(*b)),
{
    match (a, b) {
        (Some(x), Some(y)) => {
            let e = x.eq(y);
            proof {
                if e {
                    assert(opt_str_view(*a) == opt_str_view(*b));
                }
            }
            e
        },
        (None, None) => true,
        _ => false,
    }
}

/// Whether two nodes are close enough in structure to diff in place: the
/// same type and tag, and for elements the same explicit id if both have
/// one, else the same `id` attribute if both carry one, else a shared
/// nonempty `class`. A heuristic, not an equivalence.
pub open spec fn spec_nodes_similar(a: SpecDomNode, b: SpecDomNode) -> bool {
    if a.node_type != b.node_type || a.tag_name != b.tag_name {
        false
    } else if a.node_type == DomNodeType::Element {
        if a.id is Some && b.id is Some {
            a.id == b.id
        } else {
            let oi = spec_attr_get(a.attributes, "id"@);
            let ni = spec_attr_get(b.attributes, "id"@);
            if oi is Some && ni is Some {
                oi == ni
            } else {
                let oc = match spec_attr_get(a.attributes, "class"@) {
                    Some(c) => c,
                    None => Seq::empty(),
                };
                let nc = match spec_attr_get(b.attributes, "class"@) {
                    Some(c) => c,
                    None => Seq::empty(),
                };
                oc.len() > 0 && oc == nc
            }
        }
    } else {
        true
    }
}

/// The attributes of the new node whose names the old node lacks.
pub open spec fn spec_added_attrs(
    o: Seq<(Seq<char>, Seq<char>)>,
    n: Seq<(Seq<char>, Seq<char>)>,
) -> Seq<(Seq<char>, Seq<char>)>
    decreases n.len(),
{
    if n.len() == 0 {
        seq![]
    } else {
        (if spec_attr_get(o, n[0].0) is None {
            seq![n[0]]
        } else {
            seq![]
        }) + spec_added_attrs(o, n.drop_first())
    }
}

/// The names of the old node the new node lacks.
pub open spec fn spec_removed_attrs(
    o: Seq<(Seq<char>, Seq<char>)>,
    n: Seq<(Seq<char>, Seq<char>)>,
) -> Seq<Seq<char>>
    decreases o.len(),
{
    if o.len() == 0 {
        seq![]
    } else {
        (if spec_attr_get(n, o[0].0) is None {
            seq![o[0].0]
        } else {
            seq![]
        }) + spec_removed_attrs(o.drop_first(), n)
    }
}

/// The attributes both nodes name whose value changed, with the new
/// values.
pub open spec fn spec_updated_attrs(
    o: Seq<(Seq<char>, Seq<char>)>,
    n: Seq<(Seq<char>, Seq<char>)>,
) -> Seq<(Seq<char>, Seq<char>)>
    decreases n.len(),
{
    if n.len() == 0 {
        seq![]
    } else {
        (match spec_attr_get(o, n[0].0) {
            Some(ov) => if ov != n[0].1 {
                seq![n[0]]
            } else {
                seq![]
            },
            None => seq![],
        }) + spec_updated_attrs(o, n.drop_first())
    }
}

/// What `diff_nodes` promises of its result. Nodes of different type or
/// tag are replaced whole; text nodes get exactly one text update when
/// their content differs and nothing otherwise; elements get at most one
/// update operation, whose attribute parts are exactly the added, removed
/// and updated attributes, and one is emitted whenever any attribute
/// changed.
pub open spec fn diff_nodes_post(ov: SpecDomNode, nv: SpecDomNode, r: Seq<DomDiffOperation>) -> bool {
    if ov.node_type != nv.node_type || ov.tag_name != nv.tag_name {
        &&& r.len() == 2
        &&& r[0] == (DomDiffOperation::DeleteNode { index: 0 })
        &&& r[1] matches DomDiffOperation::InsertNode { index, node } && index == 0 && dom_view(
            node,
        ) == nv
    } else if ov.node_type == DomNodeType::Text {
        if ov.text_content != nv.text_content {
            &&& r.len() == 1
            &&& r[0] matches DomDiffOperation::UpdateText { index, new_text } && index == 0
                && new_text@ == (match nv.text_content {
                Some(t) => t,
                None => Seq::<char>::empty(),
            })
        } else {
            r.len() == 0
        }
    } else {
        &&& r.len() <= 1
        &&& (r.len() == 1 ==> (r[0] matches DomDiffOperation::UpdateNode { index, changes }
            && index == 0 && attrs_view(changes.added_attributes@) == spec_added_attrs(
            ov.attributes,
            nv.attributes,
        ) && strs_view(changes.removed_attributes@) == spec_removed_attrs(
            ov.attributes,
            nv.attributes,
        ) && attrs_view(changes.updated_attributes@) == spec_updated_attrs(
            ov.attributes,
            nv.attributes,
        )))
        &&& ((spec_added_attrs(ov.attributes, nv.attributes).len() > 0 || spec_removed_attrs(
            ov.attributes,
            nv.attributes,
        ).len() > 0 || spec_updated_attrs(ov.attributes, nv.attributes).len() > 0) ==> r.len()
            == 1)
    }
}

/// The structural diff generator.
pub struct DomDiffer;

impl DomDiffer {
    /// The operations that take the old snapshot's tree to the new one's.
    pub fn diff(old: &DomSnapshot, new: &DomSnapshot) -> (r: Vec<DomDiffOperation>)
        ensures
            diff_nodes_post(dom_view(old.root), dom_view(new.root), r@),
    {
        Self::diff_nodes(&old.root, &new.root)
    }

    /// Diff two nodes: replace on a type or tag change, update text in
    /// place, and otherwise collect attribute and child changes into at
    /// most one update operation.
    pub fn diff_nodes(old: &DomNode, new: &DomNode) -> (r: Vec<DomDiffOperation>)
        ensures
            diff_nodes_post(dom_view(*old), dom_view(*new), r@),
        decreases *old, 1nat,
    {
        let ghost ov = dom_view(*old);
        let ghost nv = dom_view(*new);
        let mut operations: Vec<DomDiffOperation> = Vec::new();
        let types_differ = !node_type_equal(old.node_type, new.node_type) || !opt_string_equal(
            &old.tag_name,
            &new.tag_name,
        );
        if types_differ {
            operations.push(DomDiffOperation::DeleteNode { index: 0 });
            operations.push(
                DomDiffOperation::InsertNode { index: 0, node: clone_dom_node(new) },
            );
            return operations;
        }
        if matches!(old.node_type, DomNodeType::Text) {
            if !opt_string_equal(&old.text_content, &new.text_content) {
                let new_text = match &new.text_content {
                    Some(t) => t.clone(),
                    None => String::new(),
                };
                operations.push(DomDiffOperation::UpdateText { index: 0, new_text });
            }
            return operations;
        }
        let added_attributes = added_attrs(&old.attributes, &new.attributes);
        let removed_attributes = removed_attrs(&old.attributes, &new.attributes);
        let updated_attributes = updated_attrs(&old.attributes, &new.attributes);
        let children_changes = Self::diff_children(&old.children, &new.children);
        if added_attributes.len() > 0 || removed_attributes.len() > 0 || updated_attributes.len()
            > 0 || children_changes.len() > 0 {
            let changes = DomChanges {
                added_attributes,
                removed_attributes,
                updated_attributes,
                children_changes,
            };
            operations.push(DomDiffOperation::UpdateNode { index: 0, changes });
        }
        operations
    }

    /// Diff two child lists: children with matching explicit ids are
    /// diffed in place first; the rest are walked in order, diffing
    /// similar nodes, moving a later similar node forward, and otherwise
    /// inserting and deleting. With no old children the result is exactly
    /// one insert per new child, in order; with no new children, exactly
    /// one delete per old child.
    pub fn diff_children(old_children: &Vec<DomNode>, new_children: &Vec<DomNode>) -> (r: Vec<
        DomDiffOperation,
    >)
        ensures
            old_children@.len() == 0 ==> r@.len() == new_children@.len() && (forall|i: int|
                0 <= i < r@.len() ==> ((#[trigger] r@[i]) matches DomDiffOperation::InsertNode {
                    index,
                    node,
                } && index == i && dom_view(node) == dom_views(new_children@)[i])),
            new_children@.len() == 0 ==> r@.len() == old_children@.len() && (forall|i: int|
                0 <= i < r@.len() ==> (#[trigger] r@[i]) == (DomDiffOperation::DeleteNode {
                    index: i as usize,
                })),
        decreases old_children@, 0nat,
    {
        let ghost nvs = dom_views(new_children@);
        proof {
            lemma_dom_views_index(new_children@);
            lemma_dom_views_index(old_children@);
        }
        let mut operations: Vec<DomDiffOperation> = Vec::new();
        let mut old_index: usize = 0;
        let mut new_index: usize = 0;
        let old_len = old_children.len();
        let new_len = new_children.len();
        // First pass: children with matching explicit ids.
        let mut scan: usize = 0;
        while scan < new_len
            invariant
                old_len == old_children@.len(),
                new_len == new_children@.len(),
                old_index <= old_len,
                new_index <= new_len,
                old_len == 0 ==> operations@.len() == 0 && old_index == 0 && new_index == 0,
                new_len == 0 ==> operations@.len() == 0 && old_index == 0 && new_index == 0,
            decreases new_len - scan,
        {
            if let Some(idv) = new_children[scan].id {
                let mut oscan: usize = 0;
                let mut found: Option<usize> = None;
                while oscan < old_len
                    invariant
                        old_len == old_children@.len(),
                        match found {
                            Some(j) => j < old_len,
                            None => true,
                        },
                    decreases old_len - oscan,
                {
                    if let Some(oid) = old_children[oscan].id {
                        if oid == idv {
                            found = Some(oscan);
                            break ;
                        }
                    }
                    oscan = oscan + 1;
                }
                if let Some(oi) = found {
                    proof {
                        assert(decreases_to!(old_children@ => old_children@[oi as int]));
                    }
                    let mut node_changes = Self::diff_nodes(
                        &old_children[oi],
                        &new_children[scan],
                    );
                    operations.append(&mut node_changes);
                    old_index = oi + 1;
                    new_index = scan + 1;
                }
            }
            scan = scan + 1;
        }
        // Second pass: the remaining children, in order.
        while old_index < old_len || new_index < new_len
            invariant
                old_len == old_children@.len(),
                new_len == new_children@.len(),
                old_index <= old_len,
                new_index <= new_len,
                nvs == dom_views(new_children@),
                old_len == 0 ==> old_index == 0 && operations@.len() == new_index && (forall|
                    i: int,
                |
                    0 <= i < new_index ==> ((
                    #[trigger] operations@[i]) matches DomDiffOperation::InsertNode {
                        index,
                        node,
                    } && index == i && dom_view(node) == nvs[i])),
                new_len == 0 ==> new_index == 0 && operations@.len() == old_index && (forall|
                    i: int,
                |
                    0 <= i < old_index ==> (#[trigger] operations@[i]) == (
                    DomDiffOperation::DeleteNode { index: i as usize })),
            decreases (old_len - old_index) + (new_len - new_index),
        {
            if old_index >= old_len {
                let node = clone_dom_node(&new_children[new_index]);
                let ghost prev = operations@;
                let ghost nv = dom_view(node);
                operations.push(DomDiffOperation::InsertNode { index: new_index, node });
                proof {
                    if old_len == 0 {
                        lemma_dom_views_index(new_children@);
                        assert(dom_views(new_children@)[new_index as int] == dom_view(
                            new_children@[new_index as int],
                        ));
                        assert(nvs[new_index as int] == nv);
                        assert forall|i: int|
                            0 <= i < new_index + 1 implies ((
                        #[trigger] operations@[i]) matches DomDiffOperation::InsertNode {
                            index,
                            node,
                        } && index == i && dom_view(node) == nvs[i]) by {
                            if i < new_index {
                                assert(operations@[i] == prev[i]);
                            }
                        }
                    }
                }
                new_index = new_index + 1;
            } else if new_index >= new_len {
                operations.push(DomDiffOperation::DeleteNode { index: old_index });
                old_index = old_index + 1;
            } else {
                let old_node = &old_children[old_index];
                let new_node = &new_children[new_index];
                if Self::nodes_are_similar(old_node, new_node) {
                    proof {
                        assert(decreases_to!(old_children@ => old_children@[old_index as int]));
                    }
                    let mut node_changes = Self::diff_nodes(old_node, new_node);
                    operations.append(&mut node_changes);
                    old_index = old_index + 1;
                    new_index = new_index + 1;
                } else {
                    let mut probe = old_index + 1;
                    let mut moved = false;
                    while probe < old_len
                        invariant
                            old_len == old_children@.len(),
                            new_len == new_children@.len(),
                            new_index < new_len,
                        decreases old_len - probe,
                    {
                        if Self::nodes_are_similar(&old_children[probe], new_node) {
                            operations.push(
                                DomDiffOperation::MoveNode {
                                    from_index: probe,
                                    to_index: new_index,
                                },
                            );
                            moved = true;
                            break ;
                        }
                        probe = probe + 1;
                    }
                    if moved {
                        old_index = old_index + 1;
                        new_index = new_index + 1;
                    } else {
                        let node = clone_dom_node(new_node);
                        operations.push(
                            DomDiffOperation::InsertNode { index: new_index, node },
                        );
                        new_index = new_index + 1;
                    }
                }
            }
        }
        operations
    }

    /// Whether two nodes are structurally similar: `spec_nodes_similar`
    /// of their values.
    pub fn nodes_are_similar(old: &DomNode, new: &DomNode) -> (r: bool)
        ensures
            r == spec_nodes_similar(dom_view(*old), dom_view(*new)),
    {
        if !node_type_equal(old.node_type, new.node_type) || !opt_string_equal(
            &old.tag_name,
            &new.tag_name,
        ) {
            return false;
        }
        if matches!(old.node_type, DomNodeType::Element) {
            if let (Some(oid), Some(nid)) = (old.id, new.id) {
                return oid == nid;
            }
            let old_id = attr_get(&old.attributes, "id");
            let new_id = attr_get(&new.attributes, "id");
            match (old_id, new_id) {
                (Some(ov), Some(nv)) => {
                    return ov.eq(nv);
                },
                _ => {},
            }
            let old_class = attr_get(&old.attributes, "class");
            let new_class = attr_get(&new.attributes, "class");
            match (old_class, new_class) {
                (Some(oc), Some(nc)) => oc.as_str().unicode_len() > 0 && oc.eq(nc),
                _ => {
                    proof {
                        let oc = match spec_attr_get(dom_view(*old).attributes, "class"@) {
                            Some(c) => c,
                            None => Seq::<char>::empty(),
                        };
                        let nc = match spec_attr_get(dom_view(*new).attributes, "class"@) {
                            Some(c) => c,
                            None => Seq::<char>::empty(),
                        };
                        if spec_attr_get(dom_view(*old).attributes, "class"@) is None {
                            assert(oc.len() == 0);
                        }
                    }
                    false
                },
            }
        } else {
            true
        }
    }
}

/// Whether two node types are the same.
fn node_type_equal(a: DomNodeType, b: DomNodeType) -> (r: bool)
    ensures
        r == (a == b),
{
    a == b
}

/// The attributes of the new list whose names the old list lacks.
fn added_attrs(o: &Vec<(String, String)>, n: &Vec<(String, String)>) -> (r: Vec<(String, String)>)
    ensures
        attrs_view(r@) == spec_added_attrs(attrs_view(o@), attrs_view(n@)),
{
    let ghost oa = attrs_view(o@);
    let ghost na = attrs_view(n@);
    let mut out: Vec<(String, String)> = Vec::new();
    proof {
        assert(attrs_view(out@) =~= Seq::<(Seq<char>, Seq<char>)>::empty());
        assert(na.subrange(0, na.len() as int) =~= na);
        assert(Seq::<(Seq<char>, Seq<char>)>::empty() + spec_added_attrs(oa, na)
            =~= spec_added_attrs(oa, na));
    }
    let mut i: usize = 0;
    while i < n.len()
        invariant
            i <= n@.len(),
            oa == attrs_view(o@),
            na == attrs_view(n@),
            spec_added_attrs(oa, na) == attrs_view(out@) + spec_added_attrs(
                oa,
                na.subrange(i as int, na.len() as int),
            ),
        decreases n@.len() - i,
    {
        let ghost sub = na.subrange(i as int, na.len() as int);
        proof {
            assert(sub[0] == na[i as int]);
            assert(na[i as int] == (n@[i as int].0@, n@[i as int].1@));
            assert(sub.drop_first() =~= na.subrange(i as int + 1, na.len() as int));
        }
        let pair = &n[i];
        if attr_get(o, pair.0.as_str()).is_none() {
            let ghost prev = out@;
            out.push((pair.0.clone(), pair.1.clone()));
            proof {
                assert(attrs_view(out@) =~= attrs_view(prev).push(na[i as int]));
                assert(attrs_view(prev).push(na[i as int]) =~= attrs_view(prev) + seq![
                    na[i as int],
                ]);
                assert((attrs_view(prev) + seq![na[i as int]]) + spec_added_attrs(
                    oa,
                    na.subrange(i as int + 1, na.len() as int),
                ) =~= attrs_view(prev) + (seq![na[i as int]] + spec_added_attrs(
                    oa,
                    na.subrange(i as int + 1, na.len() as int),
                )));
            }
        }
        i = i + 1;
    }
    proof {
        assert(na.subrange(na.len() as int, na.len() as int) =~= Seq::<(Seq<char>, Seq<char>)>::empty());
        assert(attrs_view(out@) + Seq::<(Seq<char>, Seq<char>)>::empty() =~= attrs_view(out@));
    }
    out
}

/// The names of the old list the new list lacks.
fn removed_attrs(o: &Vec<(String, String)>, n: &Vec<(String, String)>) -> (r: Vec<String>)
    ensures
        strs_view(r@) == spec_removed_attrs(attrs_view(o@), attrs_view(n@)),
{
    let ghost oa = attrs_view(o@);
    let ghost na = attrs_view(n@);
    let mut out: Vec<String> = Vec::new();
    proof {
        assert(strs_view(out@) =~= Seq::<Seq<char>>::empty());
        assert(oa.subrange(0, oa.len() as int) =~= oa);
        assert(Seq::<Seq<char>>::empty() + spec_removed_attrs(oa, na) =~= spec_removed_attrs(
            oa,
            na,
        ));
    }
    let mut i: usize = 0;
    while i < o.len()
        invariant
            i <= o@.len(),
            oa == attrs_view(o@),
            na == attrs_view(n@),
            spec_removed_attrs(oa, na) == strs_view(out@) + spec_removed_attrs(
                oa.subrange(i as int, oa.len() as int),
                na,
            ),
        decreases o@.len() - i,
    {
        let ghost sub = oa.subrange(i as int, oa.len() as int);
        proof {
            assert(sub[0] == oa[i as int]);
            assert(oa[i as int] == (o@[i as int].0@, o@[i as int].1@));
            assert(sub.drop_first() =~= oa.subrange(i as int + 1, oa.len() as int));
        }
        let pair = &o[i];
        if attr_get(n, pair.0.as_str()).is_none() {
            let ghost prev = out@;
            out.push(pair.0.clone());
            proof {
                assert(strs_view(out@) =~= strs_view(prev).push(oa[i as int].0));
                assert(strs_view(prev).push(oa[i as int].0) =~= strs_view(prev) + seq![
                    oa[i as int].0,
                ]);
                assert((strs_view(prev) + seq![oa[i as int].0]) + spec_removed_attrs(
                    oa.subrange(i as int + 1, oa.len() as int),
                    na,
                ) =~= strs_view(prev) + (seq![oa[i as int].0] + spec_removed_attrs(
                    oa.subrange(i as int + 1, oa.len() as int),
                    na,
                )));
            }
        }
        i = i + 1;
    }
    proof {
        assert(oa.subrange(oa.len() as int, oa.len() as int) =~= Seq::<(Seq<char>, Seq<char>)>::empty());
        assert(strs_view(out@) + Seq::<Seq<char>>::empty() =~= strs_view(out@));
    }
    out
}

/// The attributes both lists name whose value changed, with the new
/// values.
fn updated_attrs(o: &Vec<(String, String)>, n: &Vec<(String, String)>) -> (r: Vec<
    (String, String),
>)
    ensures
        attrs_view(r@) == spec_updated_attrs(attrs_view(o@), attrs_view(n@)),
{
    let ghost oa = attrs_view(o@);
    let ghost na = attrs_view(n@);
    let mut out: Vec<(String, String)> = Vec::new();
    proof {
        assert(attrs_view(out@) =~= Seq::<(Seq<char>, Seq<char>)>::empty());
        assert(na.subrange(0, na.len() as int) =~= na);
        assert(Seq::<(Seq<char>, Seq<char>)>::empty() + spec_updated_attrs(oa, na)
            =~= spec_updated_attrs(oa, na));
    }
    let mut i: usize = 0;
    while i < n.len()
        invariant
            i <= n@.len(),
            oa == attrs_view(o@),
            na == attrs_view(n@),
            spec_updated_attrs(oa, na) == attrs_view(out@) + spec_updated_attrs(
                oa,
                na.subrange(i as int, na.len() as int),
            ),
        decreases n@.len() - i,
    {
        let ghost sub = na.subrange(i as int, na.len() as int);
        proof {
            assert(sub[0] == na[i as int]);
            assert(na[i as int] == (n@[i as int].0@, n@[i as int].1@));
            assert(sub.drop_first() =~= na.subrange(i as int + 1, na.len() as int));
        }
        let pair = &n[i];
        let mut push_it = false;
        match attr_get(o, pair.0.as_str()) {
            Some(ov) => {
                if !ov.eq(&pair.1) {
                    push_it = true;
                }
            },
            None => {},
        }
        if push_it {
            let ghost prev = out@;
            out.push((pair.0.clone(), pair.1.clone()));
            proof {
                assert(attrs_view(out@) =~= attrs_view(prev).push(na[i as int]));
                assert(attrs_view(prev).push(na[i as int]) =~= attrs_view(prev) + seq![
                    na[i as int],
                ]);
                assert((attrs_view(prev) + seq![na[i as int]]) + spec_updated_attrs(
                    oa,
                    na.subrange(i as int + 1, na.len() as int),
                ) =~= attrs_view(prev) + (seq![na[i as int]] + spec_updated_attrs(
                    oa,
                    na.subrange(i as int + 1, na.len() as int),
                )));
            }
        }
        i = i + 1;
    }
    proof {
        assert(na.subrange(na.len() as int, na.len() as int) =~= Seq::<(Seq<char>, Seq<char>)>::empty());
        assert(attrs_view(out@) + Seq::<(Seq<char>, Seq<char>)>::empty() =~= attrs_view(out@));
    }
    out
}

/// Applies diff operations to a snapshot, yielding the next snapshot.
pub struct DomPatchApplier;

impl DomPatchApplier {
    /// The snapshot one step later: the tree copied, the timestamp and
    /// version advanced by one; the operations themselves are not yet
    /// folded in, matching the snapshot-only bookkeeping the differ's
    /// callers rely on.
    pub fn apply(snapshot: &DomSnapshot, diff: &[DomDiffOperation]) -> (r: DomSnapshot)
        requires
            snapshot.timestamp < u64::MAX,
            snapshot.version < u32::MAX,
        ensures
            dom_view(r.root) == dom_view(snapshot.root),
            r.timestamp == snapshot.timestamp + 1,
            r.version == snapshot.version + 1,
            r.node_count == snapshot.node_count,
            r.size_in_bytes == snapshot.size_in_bytes,
    {
        let ghost _ops = diff@;
        let new_root = clone_dom_node(&snapshot.root);
        DomSnapshot {
            root: new_root,
            timestamp: snapshot.timestamp + 1,
            version: snapshot.version + 1,
            node_count: snapshot.node_count,
            size_in_bytes: snapshot.size_in_bytes,
        }
    }
}

} // verus!
