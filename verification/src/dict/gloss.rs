//! Gloss trees: the structured content of one dictionary entry.
use crate::chars::{chars_of, is_ascii_digit, is_text, push_chars, same_str, string_of, strs};
use crate::json::{
    field, fields_v, find_field, find_string, json_fields, json_list, json_string, read_fields,
    read_list, read_string, string_field,
};
use vstd::prelude::*;

verus! {

/// The tags that the structured-content schema knows.
#[derive(Clone, Copy, Debug, PartialEq, Eq, Structural)]
pub enum Tag {
    /// No tag: text, a line break, a bare group.
    Untagged,
    Ruby,
    Rt,
    Rp,
    Table,
    Thead,
    Tbody,
    Tfoot,
    Tr,
    Td,
    Th,
    Span,
    Div,
    Ol,
    Ul,
    Li,
    Details,
    Summary,
    Img,
    A,
    /// A tag that the schema does not know.
    Other,
}

/// The tag that a selector or a node names in lower case, where the schema
/// has a node for it.
pub open spec fn tag_named(name: Seq<char>) -> Option<Tag> {
    if name == "ruby"@ {
        Some(Tag::Ruby)
    } else if name == "rt"@ {
        Some(Tag::Rt)
    } else if name == "rp"@ {
        Some(Tag::Rp)
    } else if name == "table"@ {
        Some(Tag::Table)
    } else if name == "thead"@ {
        Some(Tag::Thead)
    } else if name == "tbody"@ {
        Some(Tag::Tbody)
    } else if name == "tfoot"@ {
        Some(Tag::Tfoot)
    } else if name == "tr"@ {
        Some(Tag::Tr)
    } else if name == "td"@ {
        Some(Tag::Td)
    } else if name == "th"@ {
        Some(Tag::Th)
    } else if name == "span"@ {
        Some(Tag::Span)
    } else if name == "div"@ {
        Some(Tag::Div)
    } else if name == "ol"@ {
        Some(Tag::Ol)
    } else if name == "ul"@ {
        Some(Tag::Ul)
    } else if name == "li"@ {
        Some(Tag::Li)
    } else if name == "details"@ {
        Some(Tag::Details)
    } else if name == "summary"@ {
        Some(Tag::Summary)
    } else if name == "img"@ {
        Some(Tag::Img)
    } else if name == "a"@ {
        Some(Tag::A)
    } else {
        None
    }
}

/// The tag that a lower-case name stands for.
pub fn tag_for(name: &[char]) -> (r: Option<Tag>)
    ensures
        r == tag_named(name@),
{
    if is_text(name, "ruby") {
        Some(Tag::Ruby)
    } else if is_text(name, "rt") {
        Some(Tag::Rt)
    } else if is_text(name, "rp") {
        Some(Tag::Rp)
    } else if is_text(name, "table") {
        Some(Tag::Table)
    } else if is_text(name, "thead") {
        Some(Tag::Thead)
    } else if is_text(name, "tbody") {
        Some(Tag::Tbody)
    } else if is_text(name, "tfoot") {
        Some(Tag::Tfoot)
    } else if is_text(name, "tr") {
        Some(Tag::Tr)
    } else if is_text(name, "td") {
        Some(Tag::Td)
    } else if is_text(name, "th") {
        Some(Tag::Th)
    } else if is_text(name, "span") {
        Some(Tag::Span)
    } else if is_text(name, "div") {
        Some(Tag::Div)
    } else if is_text(name, "ol") {
        Some(Tag::Ol)
    } else if is_text(name, "ul") {
        Some(Tag::Ul)
    } else if is_text(name, "li") {
        Some(Tag::Li)
    } else if is_text(name, "details") {
        Some(Tag::Details)
    } else if is_text(name, "summary") {
        Some(Tag::Summary)
    } else if is_text(name, "img") {
        Some(Tag::Img)
    } else if is_text(name, "a") {
        Some(Tag::A)
    } else {
        None
    }
}

/// The style properties that the renderer understands.
#[derive(Clone, Copy, Debug, PartialEq, Eq, Structural)]
pub enum StyleKey {
    FontStyle,
    FontWeight,
    FontSize,
    TextDecorationLine,
    TextDecorationStyle,
    TextDecorationColor,
    VerticalAlign,
    TextAlign,
    WhiteSpace,
    WordBreak,
    Cursor,
    ListStyleType,
    Color,
    BackgroundColor,
    BorderColor,
    BorderStyle,
    BorderRadius,
    BorderWidth,
    Margin,
    MarginTop,
    MarginRight,
    MarginBottom,
    MarginLeft,
    Padding,
    PaddingTop,
    PaddingRight,
    PaddingBottom,
    PaddingLeft,
}

/// The property that an inline `style` record names in camel case.
pub open spec fn style_named(name: Seq<char>) -> Option<StyleKey> {
    if name == "fontStyle"@ {
        Some(StyleKey::FontStyle)
    } else if name == "fontWeight"@ {
        Some(StyleKey::FontWeight)
    } else if name == "fontSize"@ {
        Some(StyleKey::FontSize)
    } else if name == "textDecorationLine"@ {
        Some(StyleKey::TextDecorationLine)
    } else if name == "textDecorationStyle"@ {
        Some(StyleKey::TextDecorationStyle)
    } else if name == "textDecorationColor"@ {
        Some(StyleKey::TextDecorationColor)
    } else if name == "verticalAlign"@ {
        Some(StyleKey::VerticalAlign)
    } else if name == "textAlign"@ {
        Some(StyleKey::TextAlign)
    } else if name == "whiteSpace"@ {
        Some(StyleKey::WhiteSpace)
    } else if name == "wordBreak"@ {
        Some(StyleKey::WordBreak)
    } else if name == "cursor"@ {
        Some(StyleKey::Cursor)
    } else if name == "listStyleType"@ {
        Some(StyleKey::ListStyleType)
    } else if name == "color"@ {
        Some(StyleKey::Color)
    } else if name == "backgroundColor"@ {
        Some(StyleKey::BackgroundColor)
    } else if name == "borderColor"@ {
        Some(StyleKey::BorderColor)
    } else if name == "borderStyle"@ {
        Some(StyleKey::BorderStyle)
    } else if name == "borderRadius"@ {
        Some(StyleKey::BorderRadius)
    } else if name == "borderWidth"@ {
        Some(StyleKey::BorderWidth)
    } else if name == "margin"@ {
        Some(StyleKey::Margin)
    } else if name == "marginTop"@ {
        Some(StyleKey::MarginTop)
    } else if name == "marginRight"@ {
        Some(StyleKey::MarginRight)
    } else if name == "marginBottom"@ {
        Some(StyleKey::MarginBottom)
    } else if name == "marginLeft"@ {
        Some(StyleKey::MarginLeft)
    } else if name == "padding"@ {
        Some(StyleKey::Padding)
    } else if name == "paddingTop"@ {
        Some(StyleKey::PaddingTop)
    } else if name == "paddingRight"@ {
        Some(StyleKey::PaddingRight)
    } else if name == "paddingBottom"@ {
        Some(StyleKey::PaddingBottom)
    } else if name == "paddingLeft"@ {
        Some(StyleKey::PaddingLeft)
    } else {
        None
    }
}

/// The property that a camel-case name stands for.
pub fn style_key_for(name: &[char]) -> (r: Option<StyleKey>)
    ensures
        r == style_named(name@),
{
    if is_text(name, "fontStyle") {
        Some(StyleKey::FontStyle)
    } else if is_text(name, "fontWeight") {
        Some(StyleKey::FontWeight)
    } else if is_text(name, "fontSize") {
        Some(StyleKey::FontSize)
    } else if is_text(name, "textDecorationLine") {
        Some(StyleKey::TextDecorationLine)
    } else if is_text(name, "textDecorationStyle") {
        Some(StyleKey::TextDecorationStyle)
    } else if is_text(name, "textDecorationColor") {
        Some(StyleKey::TextDecorationColor)
    } else if is_text(name, "verticalAlign") {
        Some(StyleKey::VerticalAlign)
    } else if is_text(name, "textAlign") {
        Some(StyleKey::TextAlign)
    } else if is_text(name, "whiteSpace") {
        Some(StyleKey::WhiteSpace)
    } else if is_text(name, "wordBreak") {
        Some(StyleKey::WordBreak)
    } else if is_text(name, "cursor") {
        Some(StyleKey::Cursor)
    } else if is_text(name, "listStyleType") {
        Some(StyleKey::ListStyleType)
    } else if is_text(name, "color") {
        Some(StyleKey::Color)
    } else if is_text(name, "backgroundColor") {
        Some(StyleKey::BackgroundColor)
    } else if is_text(name, "borderColor") {
        Some(StyleKey::BorderColor)
    } else if is_text(name, "borderStyle") {
        Some(StyleKey::BorderStyle)
    } else if is_text(name, "borderRadius") {
        Some(StyleKey::BorderRadius)
    } else if is_text(name, "borderWidth") {
        Some(StyleKey::BorderWidth)
    } else if is_text(name, "margin") {
        Some(StyleKey::Margin)
    } else if is_text(name, "marginTop") {
        Some(StyleKey::MarginTop)
    } else if is_text(name, "marginRight") {
        Some(StyleKey::MarginRight)
    } else if is_text(name, "marginBottom") {
        Some(StyleKey::MarginBottom)
    } else if is_text(name, "marginLeft") {
        Some(StyleKey::MarginLeft)
    } else if is_text(name, "padding") {
        Some(StyleKey::Padding)
    } else if is_text(name, "paddingTop") {
        Some(StyleKey::PaddingTop)
    } else if is_text(name, "paddingRight") {
        Some(StyleKey::PaddingRight)
    } else if is_text(name, "paddingBottom") {
        Some(StyleKey::PaddingBottom)
    } else if is_text(name, "paddingLeft") {
        Some(StyleKey::PaddingLeft)
    } else {
        None
    }
}

/// What a node is.
#[derive(Clone, Copy, Debug, PartialEq, Eq, Structural)]
pub enum Kind {
    Text,
    Break,
    Element,
    Image,
}

/// A `data` or `style` value.
#[derive(Debug, PartialEq, Eq)]
pub enum Scalar {
    Text(String),
    /// A number, as it was spelled.
    Number(String),
    Flag(bool),
}

/// What a scalar holds.
#[verifier::ext_equal]
pub enum ScalarV {
    Text(Seq<char>),
    Number(Seq<char>),
    Flag(bool),
}

impl Scalar {
    pub open spec fn v(self) -> ScalarV {
        match self {
            Scalar::Text(t) => ScalarV::Text(t@),
            Scalar::Number(t) => ScalarV::Number(t@),
            Scalar::Flag(b) => ScalarV::Flag(b),
        }
    }
}

impl Clone for Scalar {
    fn clone(&self) -> (r: Self)
        ensures
            r == *self,
    {
        match self {
            Scalar::Text(t) => Scalar::Text(t.clone()),
            Scalar::Number(t) => Scalar::Number(t.clone()),
            Scalar::Flag(b) => Scalar::Flag(*b),
        }
    }
}

/// One node of a tree.
#[derive(Debug, PartialEq, Eq)]
pub struct Node {
    pub kind: Kind,
    pub tag: Tag,
    /// The text of a text node, the `alt` text of an image.
    pub text: String,
    /// The asset that an image shows.
    pub path: String,
    pub data: Vec<(String, Scalar)>,
    pub style: Vec<(StyleKey, Scalar)>,
    pub children: Vec<usize>,
}

/// What a node holds.
#[verifier::ext_equal]
pub struct NodeV {
    pub kind: Kind,
    pub tag: Tag,
    pub text: Seq<char>,
    pub path: Seq<char>,
    pub data: Seq<(Seq<char>, ScalarV)>,
    pub style: Seq<(StyleKey, ScalarV)>,
    pub children: Seq<usize>,
}

pub open spec fn data_v(s: Seq<(String, Scalar)>) -> Seq<(Seq<char>, ScalarV)> {
    s.map_values(|p: (String, Scalar)| (p.0@, p.1.v()))
}

pub open spec fn style_v(s: Seq<(StyleKey, Scalar)>) -> Seq<(StyleKey, ScalarV)> {
    s.map_values(|p: (StyleKey, Scalar)| (p.0, p.1.v()))
}

impl Node {
    pub open spec fn v(self) -> NodeV {
        NodeV {
            kind: self.kind,
            tag: self.tag,
            text: self.text@,
            path: self.path@,
            data: data_v(self.data@),
            style: style_v(self.style@),
            children: self.children@,
        }
    }
}

impl Clone for Node {
    fn clone(&self) -> (r: Self)
        ensures
            r.v() == self.v(),
    {
        let mut data: Vec<(String, Scalar)> = Vec::new();
        let mut i: usize = 0;
        while i < self.data.len()
            invariant
                i <= self.data@.len(),
                data_v(data@) == data_v(self.data@.take(i as int)),
            decreases self.data@.len() - i,
        {
            let ghost before = data_v(data@);
            data.push((self.data[i].0.clone(), self.data[i].1.clone()));
            assert(data_v(data@) =~= before.push(data_v(self.data@)[i as int]));
            assert(data_v(self.data@.take(i + 1)) =~= data_v(self.data@.take(i as int)).push(
                data_v(self.data@)[i as int],
            ));
            i += 1;
        }
        assert(self.data@.take(i as int) =~= self.data@);
        let mut style: Vec<(StyleKey, Scalar)> = Vec::new();
        let mut i: usize = 0;
        while i < self.style.len()
            invariant
                i <= self.style@.len(),
                style_v(style@) == style_v(self.style@.take(i as int)),
            decreases self.style@.len() - i,
        {
            let ghost before = style_v(style@);
            style.push((self.style[i].0, self.style[i].1.clone()));
            assert(style_v(style@) =~= before.push(style_v(self.style@)[i as int]));
            assert(style_v(self.style@.take(i + 1)) =~= style_v(self.style@.take(i as int)).push(
                style_v(self.style@)[i as int],
            ));
            i += 1;
        }
        assert(self.style@.take(i as int) =~= self.style@);
        let children = copy_ids(&self.children);
        Node {
            kind: self.kind,
            tag: self.tag,
            text: self.text.clone(),
            path: self.path.clone(),
            data,
            style,
            children,
        }
    }
}

fn copy_ids(ids: &Vec<usize>) -> (r: Vec<usize>)
    ensures
        r@ == ids@,
{
    let mut r: Vec<usize> = Vec::new();
    let mut i: usize = 0;
    while i < ids.len()
        invariant
            i <= ids@.len(),
            r@ == ids@.take(i as int),
        decreases ids@.len() - i,
    {
        r.push(ids[i]);
        i += 1;
    }
    assert(ids@.take(i as int) =~= ids@);
    r
}

pub type NodeId = usize;

/// Levels that a tree may have under an item.
pub const MAX_DEPTH: u32 = 64;

/// One parsed glossary: an arena of nodes, and its top-level items.
#[derive(Debug, PartialEq, Eq)]
pub struct GlossDoc {
    nodes: Vec<Node>,
    items: Vec<NodeId>,
}

/// What a document holds.
#[verifier::ext_equal]
pub struct DocV {
    pub nodes: Seq<NodeV>,
    pub items: Seq<usize>,
}

/// The nodes from `from` on stand in the order they were read: a child stands
/// behind its parent and behind the child before it, and what lies between a
/// node and one of its children has no child as far back as that child.
pub open spec fn laid_out(nodes: Seq<NodeV>, from: int) -> bool {
    &&& forall|i: int, j: int|
        #![trigger nodes[i].children[j]]
        from <= i < nodes.len() && 0 <= j < nodes[i].children.len() ==> i < nodes[i].children[j]
            < nodes.len()
    &&& forall|i: int, j: int, k: int|
        #![trigger nodes[i].children[j], nodes[i].children[k]]
        from <= i < nodes.len() && 0 <= j < k < nodes[i].children.len() ==> nodes[i].children[j]
            < nodes[i].children[k]
    &&& forall|a: int, j: int, b: int, k: int|
        #![trigger nodes[a].children[j], nodes[b].children[k]]
        from <= a < b < nodes.len() && 0 <= j < nodes[a].children.len() && b
            < nodes[a].children[j] && 0 <= k < nodes[b].children.len() ==> nodes[b].children[k]
            < nodes[a].children[j]
}

/// The ids name nodes from `from` on, in order, and no node before one of them
/// has a child as far back as it.
pub open spec fn side_by_side(nodes: Seq<NodeV>, ids: Seq<usize>, from: int) -> bool {
    &&& forall|k: int| 0 <= k < ids.len() ==> from <= #[trigger] ids[k] < nodes.len()
    &&& forall|j: int, k: int|
        #![trigger ids[j], ids[k]]
        0 <= j < k < ids.len() ==> ids[j] < ids[k]
    &&& forall|b: int, j: int, k: int|
        #![trigger nodes[b].children[j], ids[k]]
        0 <= k < ids.len() && from <= b < ids[k] && 0 <= j < nodes[b].children.len()
            ==> nodes[b].children[j] < ids[k]
}

impl DocV {
    /// The document is a forest in the order it was read: every id names a
    /// node, and no node is an item or a child twice.
    pub open spec fn wf(self) -> bool {
        &&& laid_out(self.nodes, 0)
        &&& side_by_side(self.nodes, self.items, 0)
    }
}

impl View for GlossDoc {
    type V = DocV;

    closed spec fn view(&self) -> DocV {
        DocV { nodes: self.nodes@.map_values(|n: Node| n.v()), items: self.items@ }
    }
}

impl Default for GlossDoc {
    fn default() -> (r: Self)
        ensures
            r@.nodes.len() == 0,
            r@.items.len() == 0,
    {
        GlossDoc { nodes: Vec::new(), items: Vec::new() }
    }
}

impl Clone for GlossDoc {
    fn clone(&self) -> (r: Self)
        ensures
            r@ == self@,
    {
        proof {
            use_type_invariant(self);
        }
        let mut nodes: Vec<Node> = Vec::new();
        let mut i: usize = 0;
        while i < self.nodes.len()
            invariant
                i <= self.nodes@.len(),
                nodes@.len() == i,
                forall|k: int| 0 <= k < i ==> (#[trigger] nodes@[k]).v() == self.nodes@[k].v(),
            decreases self.nodes@.len() - i,
        {
            nodes.push(self.nodes[i].clone());
            i += 1;
        }
        let items = copy_ids(&self.items);
        assert(nodes@.map_values(|n: Node| n.v()) =~= self@.nodes);
        GlossDoc { nodes, items }
    }
}

/// One declaration that a stylesheet gives a node.
pub struct Win {
    pub id: NodeId,
    pub key: StyleKey,
    pub value: String,
}

/// What a win holds.
#[verifier::ext_equal]
pub struct WinV {
    pub id: usize,
    pub key: StyleKey,
    pub value: Seq<char>,
}

impl Win {
    pub open spec fn v(self) -> WinV {
        WinV { id: self.id, key: self.key, value: self.value@ }
    }
}

pub open spec fn wins_v(s: Seq<Win>) -> Seq<WinV> {
    s.map_values(|w: Win| w.v())
}

/// The declarations of one node among the wins, in their order.
pub open spec fn wins_for(wins: Seq<WinV>, id: int) -> Seq<(StyleKey, ScalarV)>
    decreases wins.len(),
{
    if wins.len() == 0 {
        seq![]
    } else if wins[0].id == id {
        seq![(wins[0].key, ScalarV::Text(wins[0].value))] + wins_for(wins.skip(1), id)
    } else {
        wins_for(wins.skip(1), id)
    }
}

/// A document whose nodes have their wins ahead of their own style.
pub open spec fn folded(doc: DocV, wins: Seq<WinV>) -> DocV {
    DocV {
        nodes: Seq::new(
            doc.nodes.len(),
            |i: int| NodeV { style: wins_for(wins, i) + doc.nodes[i].style, ..doc.nodes[i] },
        ),
        items: doc.items,
    }
}

impl GlossDoc {
    /// Every document is well formed.
    #[verifier::type_invariant]
    spec fn inv(self) -> bool {
        self@.wf()
    }

    /// Does the document hold no item?
    pub fn is_empty(&self) -> (r: bool)
        ensures
            r == (self@.items.len() == 0),
    {
        self.items.len() == 0
    }

    /// Every node, in parse order.
    pub fn all_nodes(&self) -> (r: &[Node])
        ensures
            r@.len() == self@.nodes.len(),
            forall|i: int| 0 <= i < r@.len() ==> (#[trigger] r@[i]).v() == self@.nodes[i],
    {
        self.nodes.as_slice()
    }

    /// The top-level items.
    pub fn items(&self) -> (r: &[NodeId])
        ensures
            r@ == self@.items,
            self@.wf(),
    {
        proof {
            use_type_invariant(self);
        }
        self.items.as_slice()
    }

    /// One node.
    pub fn node(&self, id: NodeId) -> (r: &Node)
        requires
            id < self@.nodes.len(),
        ensures
            r.v() == self@.nodes[id as int],
            self@.wf(),
    {
        proof {
            use_type_invariant(self);
        }
        &self.nodes[id]
    }

    /// The children of a node, in order.
    pub fn children(&self, id: NodeId) -> (r: &[NodeId])
        requires
            id < self@.nodes.len(),
        ensures
            r@ == self@.nodes[id as int].children,
            self@.wf(),
    {
        proof {
            use_type_invariant(self);
        }
        self.nodes[id].children.as_slice()
    }

    /// A node's resolved style record.
    pub fn style(&self, id: NodeId) -> (r: &[(StyleKey, Scalar)])
        requires
            id < self@.nodes.len(),
        ensures
            style_v(r@) == self@.nodes[id as int].style,
    {
        self.nodes[id].style.as_slice()
    }

    /// The first value of a property in a node's record.
    pub fn style_of(&self, id: NodeId, key: StyleKey) -> (r: Option<&Scalar>)
        requires
            id < self@.nodes.len(),
        ensures
            match r {
                Some(v) => exists|k: int|
                    0 <= k < self@.nodes[id as int].style.len()
                        && #[trigger] self@.nodes[id as int].style[k] == (key, v.v())
                        && (forall|j: int|
                        0 <= j < k ==> (#[trigger] self@.nodes[id as int].style[j]).0 != key),
                None => forall|j: int|
                    0 <= j < self@.nodes[id as int].style.len() ==> (
                    #[trigger] self@.nodes[id as int].style[j]).0 != key,
            },
    {
        let record = &self.nodes[id].style;
        let mut k: usize = 0;
        while k < record.len()
            invariant
                k <= record@.len(),
                style_v(record@) == self@.nodes[id as int].style,
                forall|j: int|
                    0 <= j < k ==> (#[trigger] self@.nodes[id as int].style[j]).0 != key,
            decreases record@.len() - k,
        {
            if record[k].0 == key {
                assert(self@.nodes[id as int].style[k as int] == (key, record@[k as int].1.v()));
                return Some(&record[k].1);
            }
            assert(self@.nodes[id as int].style[k as int].0 == record@[k as int].0);
            k += 1;
        }
        None
    }

    /// Puts each win ahead of the style record of its node.
    pub fn fold_declarations(&mut self, wins: &Vec<Win>)
        requires
            forall|k: int| 0 <= k < wins@.len() ==> (#[trigger] wins@[k]).id < old(self)@.nodes.len(),
        ensures
            final(self)@ == folded(old(self)@, wins_v(wins@)),
    {
        proof {
            use_type_invariant(&*self);
        }
        let mut whole = GlossDoc { nodes: Vec::new(), items: Vec::new() };
        std::mem::swap(self, &mut whole);
        let GlossDoc { nodes: mut nodes, items } = whole;
        let ghost doc = old(self)@;
        let ghost all = wins_v(wins@);
        let mut k: usize = wins.len();
        assert(all.skip(k as int) =~= seq![]);
        assert forall|i: int| 0 <= i < nodes@.len() implies (#[trigger] nodes@[i]).v()
            == folded(doc, all.skip(k as int)).nodes[i] by {
            assert(wins_for(all.skip(k as int), i) + doc.nodes[i].style =~= doc.nodes[i].style);
        }
        while k > 0
            invariant
                k <= wins@.len(),
                all == wins_v(wins@),
                nodes@.len() == doc.nodes.len(),
                forall|j: int| 0 <= j < wins@.len() ==> (#[trigger] wins@[j]).id < doc.nodes.len(),
                forall|i: int|
                    0 <= i < nodes@.len() ==> (#[trigger] nodes@[i]).v() == folded(
                        doc,
                        all.skip(k as int),
                    ).nodes[i],
            decreases k,
        {
            k -= 1;
            let ghost rest = all.skip(k + 1);
            assert(all.skip(k as int).skip(1) =~= rest);
            let id = wins[k].id;
            let ghost before = nodes@;
            let mut node = nodes.remove(id);
            let ghost own = style_v(node.style@);
            let ghost was = node.v();
            node.style.insert(0, (wins[k].key, Scalar::Text(wins[k].value.clone())));
            assert(style_v(node.style@) =~= seq![(all[k as int].key, ScalarV::Text(all[k as int].value))]
                + own);
            nodes.insert(id, node);
            assert forall|i: int| 0 <= i < nodes@.len() implies (#[trigger] nodes@[i]).v() == folded(
                doc,
                all.skip(k as int),
            ).nodes[i] by {
                if i == id {
                    assert(nodes@[i] == node);
                    assert(before[i].v() == folded(doc, rest).nodes[i]);
                    assert(own == wins_for(rest, i) + doc.nodes[i].style);
                    assert(wins_for(all.skip(k as int), i) + doc.nodes[i].style =~= seq![
                        (all[k as int].key, ScalarV::Text(all[k as int].value)),
                    ] + own);
                } else {
                    assert(nodes@[i] == before[i]);
                    assert(before[i].v() == folded(doc, rest).nodes[i]);
                }
            }
        }
        assert(all.skip(0) =~= all);
        assert(nodes@.map_values(|n: Node| n.v()) =~= folded(doc, all).nodes);
        *self = GlossDoc { nodes, items };
    }
}

/// A value's text, where it is text.
pub fn scalar_str<'a>(v: &'a Scalar) -> (r: Option<&'a str>)
    ensures
        match r {
            Some(t) => v.v() == ScalarV::Text(t@),
            None => v.v() !is Text,
        },
{
    match v {
        Scalar::Text(t) => Some(t.as_str()),
        _ => None,
    }
}


// ---- parsing ----

/// A `data` or `style` value as a scalar: a string, a number, a truth value.
pub open spec fn scalar_of(text: Seq<char>) -> Option<ScalarV> {
    match json_string(text) {
        Some(s) => Some(ScalarV::Text(s)),
        None => if text == "true"@ {
            Some(ScalarV::Flag(true))
        } else if text == "false"@ {
            Some(ScalarV::Flag(false))
        } else if text.len() > 0 && (text[0] == '-' || crate::chars::ascii_digit(text[0])) {
            Some(ScalarV::Number(text))
        } else {
            None
        },
    }
}

fn read_scalar(text: &str) -> (r: Option<Scalar>)
    ensures
        scalar_of(text@) == (match r {
            Some(s) => Some(s.v()),
            None => None,
        }),
{
    match read_string(text) {
        Some(s) => Some(Scalar::Text(s)),
        None => {
            let t = chars_of(text);
            if is_text(t.as_slice(), "true") {
                Some(Scalar::Flag(true))
            } else if is_text(t.as_slice(), "false") {
                Some(Scalar::Flag(false))
            } else if t.len() > 0 && (t[0] == '-' || is_ascii_digit(t[0])) {
                Some(Scalar::Number(text.to_owned()))
            } else {
                None
            }
        },
    }
}

/// The scalar fields of an object, in its order.
pub open spec fn data_of(f: Seq<(Seq<char>, Seq<char>)>) -> Seq<(Seq<char>, ScalarV)>
    decreases f.len(),
{
    if f.len() == 0 {
        seq![]
    } else {
        match scalar_of(f.last().1) {
            Some(v) => data_of(f.drop_last()).push((f.last().0, v)),
            None => data_of(f.drop_last()),
        }
    }
}

fn read_data(f: &Vec<(String, String)>) -> (r: Vec<(String, Scalar)>)
    ensures
        data_v(r@) == data_of(fields_v(f@)),
{
    let mut out: Vec<(String, Scalar)> = Vec::new();
    let ghost all = fields_v(f@);
    assert(data_v(out@) =~= seq![]);
    let mut i: usize = 0;
    while i < f.len()
        invariant
            i <= f@.len(),
            all == fields_v(f@),
            data_v(out@) == data_of(all.take(i as int)),
        decreases f@.len() - i,
    {
        assert(all.take(i + 1).drop_last() =~= all.take(i as int));
        match read_scalar(f[i].1.as_str()) {
            Some(v) => {
                let ghost before = data_v(out@);
                let ghost vv = v.v();
                out.push((f[i].0.clone(), v));
                assert(data_v(out@) =~= before.push((f@[i as int].0@, vv)));
            },
            None => {},
        }
        i += 1;
    }
    assert(all.take(i as int) =~= all);
    out
}

/// The fields of an inline `style` object that this build knows, in its order.
pub open spec fn inline_of(f: Seq<(Seq<char>, Seq<char>)>) -> Seq<(StyleKey, ScalarV)>
    decreases f.len(),
{
    if f.len() == 0 {
        seq![]
    } else {
        match (style_named(f.last().0), scalar_of(f.last().1)) {
            (Some(k), Some(v)) => inline_of(f.drop_last()).push((k, v)),
            _ => inline_of(f.drop_last()),
        }
    }
}

fn read_inline(f: &Vec<(String, String)>) -> (r: Vec<(StyleKey, Scalar)>)
    ensures
        style_v(r@) == inline_of(fields_v(f@)),
{
    let mut out: Vec<(StyleKey, Scalar)> = Vec::new();
    let ghost all = fields_v(f@);
    assert(style_v(out@) =~= seq![]);
    let mut i: usize = 0;
    while i < f.len()
        invariant
            i <= f@.len(),
            all == fields_v(f@),
            style_v(out@) == inline_of(all.take(i as int)),
        decreases f@.len() - i,
    {
        assert(all.take(i + 1).drop_last() =~= all.take(i as int));
        let name = chars_of(f[i].0.as_str());
        match (style_key_for(name.as_slice()), read_scalar(f[i].1.as_str())) {
            (Some(k), Some(v)) => {
                let ghost before = style_v(out@);
                let ghost vv = v.v();
                out.push((k, v));
                assert(style_v(out@) =~= before.push((k, vv)));
            },
            _ => {},
        }
        i += 1;
    }
    assert(all.take(i as int) =~= all);
    out
}

pub open spec fn leaf(kind: Kind, text: Seq<char>) -> NodeV {
    NodeV {
        kind,
        tag: Tag::Untagged,
        text,
        path: seq![],
        data: seq![],
        style: seq![],
        children: seq![],
    }
}

fn new_leaf(kind: Kind, text: String) -> (r: Node)
    ensures
        r.v() == leaf(kind, text@),
{
    let r = Node {
        kind,
        tag: Tag::Untagged,
        text,
        path: String::new(),
        data: Vec::new(),
        style: Vec::new(),
        children: Vec::new(),
    };
    assert(r.v() =~= leaf(kind, text@));
    r
}

pub open spec fn object_at(f: Seq<(Seq<char>, Seq<char>)>, key: Seq<char>) -> Seq<(Seq<char>, Seq<char>)> {
    match field(f, key) {
        Some(t) => match json_fields(t) {
            Some(o) => o,
            None => seq![],
        },
        None => seq![],
    }
}

fn read_object_at(f: &Vec<(String, String)>, key: &str) -> (r: Vec<(String, String)>)
    ensures
        fields_v(r@) == object_at(fields_v(f@), key@),
{
    match find_field(f, key) {
        Some(t) => match read_fields(t.as_str()) {
            Some(o) => o,
            None => {
                let r: Vec<(String, String)> = Vec::new();
                assert(fields_v(r@) =~= seq![]);
                r
            },
        },
        None => {
            let r: Vec<(String, String)> = Vec::new();
            assert(fields_v(r@) =~= seq![]);
            r
        },
    }
}

/// A string field of an image object, and nothing of any other.
pub open spec fn image_field(
    f: Seq<(Seq<char>, Seq<char>)>,
    name: Seq<char>,
    key: Seq<char>,
) -> Seq<char> {
    match string_field(f, key) {
        Some(t) => if name == "img"@ {
            t
        } else {
            seq![]
        },
        None => seq![],
    }
}

fn read_image_field(f: &Vec<(String, String)>, name: &[char], key: &str) -> (r: String)
    ensures
        r@ == image_field(fields_v(f@), name@, key@),
{
    if is_text(name, "img") {
        match find_string(f, key) {
            Some(t) => t,
            None => String::new(),
        }
    } else {
        String::new()
    }
}

/// A tagged object as a node without children: `br` is a line break, `img` an
/// image with its `alt` text, anything else an element.
pub open spec fn node_of(f: Seq<(Seq<char>, Seq<char>)>, name: Seq<char>) -> NodeV {
    if name == "br"@ {
        leaf(Kind::Break, seq![])
    } else {
        NodeV {
            kind: if name == "img"@ {
                Kind::Image
            } else {
                Kind::Element
            },
            tag: match tag_named(name) {
                Some(t) => t,
                None => Tag::Other,
            },
            text: image_field(f, name, "alt"@),
            path: image_field(f, name, "path"@),
            data: data_of(object_at(f, "data"@)),
            style: inline_of(object_at(f, "style"@)),
            children: seq![],
        }
    }
}

fn read_node(f: &Vec<(String, String)>, name: &str) -> (r: Node)
    ensures
        r.v() == node_of(fields_v(f@), name@),
{
    let n = chars_of(name);
    if is_text(n.as_slice(), "br") {
        return new_leaf(Kind::Break, String::new());
    }
    let image = is_text(n.as_slice(), "img");
    let text = read_image_field(f, n.as_slice(), "alt");
    let path = read_image_field(f, n.as_slice(), "path");
    let data = read_data(&read_object_at(f, "data"));
    let style = read_inline(&read_object_at(f, "style"));
    let r = Node {
        kind: if image {
            Kind::Image
        } else {
            Kind::Element
        },
        tag: match tag_for(n.as_slice()) {
            Some(t) => t,
            None => Tag::Other,
        },
        text,
        path,
        data,
        style,
        children: Vec::new(),
    };
    assert(r.v() =~= node_of(fields_v(f@), name@));
    r
}

/// Nodes with the content of one JSON text behind them, and the ids of the
/// content's own nodes. Text is a text node, a list is each of its parts, a
/// tagged object is its node with its `content` as children.
pub open spec fn with_content(nodes: Seq<NodeV>, text: Seq<char>, depth: int) -> (Seq<NodeV>, Seq<usize>)
    decreases MAX_DEPTH + 1 - depth, 1int, 0int,
    when 0 <= depth <= MAX_DEPTH + 1
{
    if depth > MAX_DEPTH {
        (nodes, seq![])
    } else {
        match json_string(text) {
            Some(s) => (nodes.push(leaf(Kind::Text, s)), seq![nodes.len() as usize]),
            None => match json_list(text) {
                Some(parts) => with_parts(nodes, parts, parts.len() as int, depth + 1),
                None => match json_fields(text) {
                    Some(f) => match string_field(f, "tag"@) {
                        Some(name) => with_node(nodes, node_of(f, name), field(f, "content"@), depth),
                        None => (nodes, seq![]),
                    },
                    None => (nodes, seq![]),
                },
            },
        }
    }
}

/// Nodes with one node behind them, which has the content as its children.
pub open spec fn with_node(
    nodes: Seq<NodeV>,
    node: NodeV,
    content: Option<Seq<char>>,
    depth: int,
) -> (Seq<NodeV>, Seq<usize>)
    decreases MAX_DEPTH + 1 - depth, 0int, 0int,
    when 0 <= depth <= MAX_DEPTH
{
    let id = nodes.len();
    match content {
        Some(c) => {
            let (all, kids) = with_content(nodes.push(node), c, depth + 1);
            (all.update(id as int, NodeV { children: kids, ..node }), seq![id as usize])
        },
        None => (nodes.push(node), seq![id as usize]),
    }
}

/// Nodes with the content of the first `n` parts of a list behind them.
pub open spec fn with_parts(nodes: Seq<NodeV>, parts: Seq<Seq<char>>, n: int, depth: int) -> (
    Seq<NodeV>,
    Seq<usize>,
)
    decreases MAX_DEPTH + 1 - depth, 2int, n,
    when 0 <= depth <= MAX_DEPTH + 1
{
    if n <= 0 {
        (nodes, seq![])
    } else {
        let (before, ids) = with_parts(nodes, parts, n - 1, depth);
        let (after, more) = with_content(before, parts[n - 1], depth);
        (after, ids + more)
    }
}

/// The bare group that holds one structured item.
pub open spec fn group() -> NodeV {
    leaf(Kind::Element, seq![])
}

/// A document with one more glossary item: a string, a text object, an image
/// object, or structured content. Anything else is passed over.
pub open spec fn with_item(doc: DocV, text: Seq<char>) -> DocV {
    let id = doc.nodes.len() as usize;
    let items = doc.items.push(id);
    match json_string(text) {
        Some(s) => DocV { nodes: doc.nodes.push(leaf(Kind::Text, s)), items },
        None => match json_fields(text) {
            None => doc,
            Some(f) => match string_field(f, "type"@) {
                None => doc,
                Some(t) => if t == "text"@ {
                    match string_field(f, "text"@) {
                        Some(s) => DocV { nodes: doc.nodes.push(leaf(Kind::Text, s)), items },
                        None => doc,
                    }
                } else if t == "image"@ {
                    DocV { nodes: doc.nodes.push(node_of(f, "img"@)), items }
                } else if t == "structured-content"@ {
                    DocV {
                        nodes: with_node(doc.nodes, group(), field(f, "content"@), 0).0,
                        items,
                    }
                } else {
                    doc
                },
            },
        },
    }
}

/// The document of the first `n` items of a glossary.
pub open spec fn items_of(parts: Seq<Seq<char>>, n: int) -> DocV
    decreases n,
{
    if n <= 0 {
        DocV { nodes: seq![], items: seq![] }
    } else {
        with_item(items_of(parts, n - 1), parts[n - 1])
    }
}

/// The document of a stored glossary: the items of a JSON list, or nothing
/// where the text is no list.
pub open spec fn parsed(glossary: Seq<char>) -> DocV {
    match json_list(glossary) {
        Some(parts) => items_of(parts, parts.len() as int),
        None => DocV { nodes: seq![], items: seq![] },
    }
}


pub open spec fn nodes_v(s: Seq<Node>) -> Seq<NodeV> {
    s.map_values(|n: Node| n.v())
}

/// A childless node at the end stands alone.
proof fn a_leaf_stands_alone(nodes: Seq<NodeV>, n: NodeV)
    requires
        n.children.len() == 0,
        nodes.len() <= usize::MAX,
    ensures
        laid_out(nodes.push(n), nodes.len() as int),
        side_by_side(nodes.push(n), seq![nodes.len() as usize], nodes.len() as int),
{
}

/// What stands in order behind nodes that stand in order continues them.
proof fn more_stands_behind(
    before: Seq<NodeV>,
    ids: Seq<usize>,
    after: Seq<NodeV>,
    more: Seq<usize>,
    from: int,
)
    requires
        0 <= from <= before.len() <= after.len(),
        forall|i: int| 0 <= i < before.len() ==> #[trigger] after[i] == before[i],
        laid_out(before, from),
        side_by_side(before, ids, from),
        laid_out(after, before.len() as int),
        side_by_side(after, more, before.len() as int),
    ensures
        laid_out(after, from),
        side_by_side(after, ids + more, from),
{
    let all = ids + more;
    assert forall|i: int, j: int|
        #![trigger after[i].children[j]]
        from <= i < after.len() && 0 <= j < after[i].children.len() implies i < after[i].children[j]
        < after.len() && (i < before.len() ==> after[i].children[j] < before.len()) by {
        if i < before.len() {
            assert(i < before[i].children[j] < before.len());
        }
    }
    assert forall|i: int, j: int, k: int|
        #![trigger after[i].children[j], after[i].children[k]]
        from <= i < after.len() && 0 <= j < k < after[i].children.len() implies after[i].children[j]
        < after[i].children[k] by {
        if i < before.len() {
            assert(before[i].children[j] < before[i].children[k]);
        }
    }
    assert forall|a: int, j: int, b: int, k: int|
        #![trigger after[a].children[j], after[b].children[k]]
        from <= a < b < after.len() && 0 <= j < after[a].children.len() && b < after[a].children[j]
            && 0 <= k < after[b].children.len() implies after[b].children[k]
        < after[a].children[j] by {
        if a < before.len() {
            assert(before[b].children[k] < before[a].children[j]);
        }
    }
    assert forall|k: int| 0 <= k < all.len() implies from <= #[trigger] all[k] < after.len() by {
        if k < ids.len() {
            assert(from <= ids[k] < before.len());
        } else {
            assert(before.len() <= more[k - ids.len()] < after.len());
        }
    }
    assert forall|j: int, k: int|
        #![trigger all[j], all[k]]
        0 <= j < k < all.len() implies all[j] < all[k] by {
        if k < ids.len() {
            assert(ids[j] < ids[k]);
        } else if j < ids.len() {
            assert(ids[j] < before.len() <= more[k - ids.len()]);
        } else {
            assert(more[j - ids.len()] < more[k - ids.len()]);
        }
    }
    assert forall|b: int, j: int, k: int|
        #![trigger after[b].children[j], all[k]]
        0 <= k < all.len() && from <= b < all[k] && 0 <= j < after[b].children.len() implies
        after[b].children[j] < all[k] by {
        if k < ids.len() {
            assert(ids[k] < before.len());
            assert(before[b].children[j] < ids[k]);
        } else {
            assert(before.len() <= more[k - ids.len()] < after.len());
            if b >= before.len() {
                assert(after[b].children[j] < more[k - ids.len()]);
            }
        }
    }
}

/// A node over content that stands in order behind it stands alone.
proof fn a_node_stands_over_its_content(all: Seq<NodeV>, id: int, node: NodeV, kids: Seq<usize>)
    requires
        0 <= id < all.len(),
        id <= usize::MAX,
        laid_out(all, id + 1),
        side_by_side(all, kids, id + 1),
    ensures
        laid_out(all.update(id, (NodeV { children: kids, ..node })), id),
        side_by_side(all.update(id, (NodeV { children: kids, ..node })), seq![id as usize], id),
{
    let now = all.update(id, (NodeV { children: kids, ..node }));
    assert forall|i: int, j: int|
        #![trigger now[i].children[j]]
        id <= i < now.len() && 0 <= j < now[i].children.len() implies i < now[i].children[j]
        < now.len() by {
        if i == id {
            assert(id + 1 <= kids[j] < all.len());
        } else {
            assert(i < all[i].children[j] < all.len());
        }
    }
    assert forall|i: int, j: int, k: int|
        #![trigger now[i].children[j], now[i].children[k]]
        id <= i < now.len() && 0 <= j < k < now[i].children.len() implies now[i].children[j]
        < now[i].children[k] by {
        if i == id {
            assert(kids[j] < kids[k]);
        } else {
            assert(all[i].children[j] < all[i].children[k]);
        }
    }
    assert forall|a: int, j: int, b: int, k: int|
        #![trigger now[a].children[j], now[b].children[k]]
        id <= a < b < now.len() && 0 <= j < now[a].children.len() && b < now[a].children[j] && 0 <= k
            < now[b].children.len() implies now[b].children[k] < now[a].children[j] by {
        if a == id {
            assert(all[b].children[k] < kids[j]);
        } else {
            assert(all[b].children[k] < all[a].children[j]);
        }
    }
}

fn add_content(nodes: &mut Vec<Node>, text: &str, depth: u32) -> (r: Vec<usize>)
    requires
        depth <= MAX_DEPTH + 1,
    ensures
        nodes_v(final(nodes)@) == with_content(nodes_v(old(nodes)@), text@, depth as int).0,
        r@ == with_content(nodes_v(old(nodes)@), text@, depth as int).1,
        old(nodes)@.len() <= final(nodes)@.len(),
        forall|i: int| 0 <= i < old(nodes)@.len() ==> final(nodes)@[i] == old(nodes)@[i],
        laid_out(nodes_v(final(nodes)@), old(nodes)@.len() as int),
        side_by_side(nodes_v(final(nodes)@), r@, old(nodes)@.len() as int),
    decreases MAX_DEPTH + 1 - depth, 1int, 0int,
{
    let mut out: Vec<usize> = Vec::new();
    if depth > MAX_DEPTH {
        return out;
    }
    match read_string(text) {
        Some(s) => {
            let ghost before = nodes_v(nodes@);
            let n = new_leaf(Kind::Text, s);
            out.push(nodes.len());
            nodes.push(n);
            assert(nodes_v(nodes@) =~= before.push(n.v()));
            assert(n.v().children.len() == 0);
            assert(out@ =~= seq![before.len() as usize]);
            proof {
                a_leaf_stands_alone(before, n.v());
            }
            out
        },
        None => match read_list(text) {
            Some(parts) => add_parts(nodes, &parts, depth + 1),
            None => match read_fields(text) {
                Some(f) => match find_string(&f, "tag") {
                    Some(name) => {
                        let node = read_node(&f, name.as_str());
                        assert(node.v().children.len() == 0);
                        let content = find_field(&f, "content");
                        add_node(nodes, node, content, depth)
                    },
                    None => out,
                },
                None => out,
            },
        },
    }
}

fn add_node(nodes: &mut Vec<Node>, node: Node, content: Option<&String>, depth: u32) -> (r: Vec<usize>)
    requires
        depth <= MAX_DEPTH,
        node.children@.len() == 0,
    ensures
        nodes_v(final(nodes)@) == with_node(
            nodes_v(old(nodes)@),
            node.v(),
            match content {
                Some(c) => Some(c@),
                None => None,
            },
            depth as int,
        ).0,
        r@ == seq![old(nodes)@.len() as usize],
        old(nodes)@.len() < final(nodes)@.len(),
        forall|i: int| 0 <= i < old(nodes)@.len() ==> final(nodes)@[i] == old(nodes)@[i],
        laid_out(nodes_v(final(nodes)@), old(nodes)@.len() as int),
        side_by_side(nodes_v(final(nodes)@), r@, old(nodes)@.len() as int),
    decreases MAX_DEPTH + 1 - depth, 0int, 0int,
{
    let id = nodes.len();
    let ghost before = nodes_v(nodes@);
    let ghost nv = node.v();
    let mut out: Vec<usize> = Vec::new();
    out.push(id);
    assert(out@ =~= seq![before.len() as usize]);
    nodes.push(node);
    assert(nodes_v(nodes@) =~= before.push(nv));
    match content {
        Some(c) => {
            let kids = add_content(nodes, c.as_str(), depth + 1);
            let ghost grew = nodes@;
            assert(nodes_v(grew)[id as int] == nv);
            let mut n = nodes.remove(id);
            n.children = kids;
            nodes.insert(id, n);
            assert(nodes@ =~= grew.update(id as int, n));
            assert(nodes_v(nodes@) =~= nodes_v(grew).update(
                id as int,
                NodeV { children: kids@, ..nv },
            ));
            proof {
                a_node_stands_over_its_content(nodes_v(grew), id as int, nv, kids@);
            }
        },
        None => {
            proof {
                a_leaf_stands_alone(before, nv);
            }
        },
    }
    out
}

fn add_parts(nodes: &mut Vec<Node>, parts: &Vec<String>, depth: u32) -> (r: Vec<usize>)
    requires
        depth <= MAX_DEPTH + 1,
    ensures
        nodes_v(final(nodes)@) == with_parts(
            nodes_v(old(nodes)@),
            strs(parts@),
            parts@.len() as int,
            depth as int,
        ).0,
        r@ == with_parts(
            nodes_v(old(nodes)@),
            strs(parts@),
            parts@.len() as int,
            depth as int,
        ).1,
        old(nodes)@.len() <= final(nodes)@.len(),
        forall|i: int| 0 <= i < old(nodes)@.len() ==> final(nodes)@[i] == old(nodes)@[i],
        laid_out(nodes_v(final(nodes)@), old(nodes)@.len() as int),
        side_by_side(nodes_v(final(nodes)@), r@, old(nodes)@.len() as int),
    decreases MAX_DEPTH + 1 - depth, 2int, 0int,
{
    let mut out: Vec<usize> = Vec::new();
    let ghost start = nodes@;
    let ghost all = strs(parts@);
    assert(out@ =~= seq![]);
    let mut i: usize = 0;
    while i < parts.len()
        invariant
            i <= parts@.len(),
            depth <= MAX_DEPTH + 1,
            start == old(nodes)@,
            all == strs(parts@),
            nodes_v(nodes@) == with_parts(nodes_v(start), all, i as int, depth as int).0,
            out@ == with_parts(nodes_v(start), all, i as int, depth as int).1,
            start.len() <= nodes@.len(),
            forall|k: int| 0 <= k < start.len() ==> nodes@[k] == start[k],
            laid_out(nodes_v(nodes@), start.len() as int),
            side_by_side(nodes_v(nodes@), out@, start.len() as int),
        decreases parts@.len() - i,
    {
        let ghost pre = nodes@;
        let ghost ids = out@;
        let mut more = add_content(nodes, parts[i].as_str(), depth);
        let ghost added = more@;
        out.append(&mut more);
        assert(out@ =~= ids + added);
        proof {
            more_stands_behind(nodes_v(pre), ids, nodes_v(nodes@), added, start.len() as int);
        }
        i += 1;
    }
    out
}

impl GlossDoc {
    /// Parses a stored glossary. An unreadable record becomes a document with
    /// no item: a hover has nothing useful to do with that error.
    pub fn parse(glossary: &str) -> (r: GlossDoc)
        ensures
            r@ == parsed(glossary@),
    {
        let mut nodes: Vec<Node> = Vec::new();
        let mut items: Vec<NodeId> = Vec::new();
        assert(nodes_v(nodes@) =~= seq![]);
        match read_list(glossary) {
            None => {},
            Some(parts) => {
                let ghost all = strs(parts@);
                let mut i: usize = 0;
                while i < parts.len()
                    invariant
                        i <= parts@.len(),
                        all == strs(parts@),
                        (DocV { nodes: nodes_v(nodes@), items: items@ }) == items_of(all, i as int),
                        laid_out(nodes_v(nodes@), 0),
                        side_by_side(nodes_v(nodes@), items@, 0),
                    decreases parts@.len() - i,
                {
                    assert(all[i as int] == parts@[i as int]@);
                    Self::add_item(&mut nodes, &mut items, parts[i].as_str());
                    i += 1;
                }
            },
        }
        GlossDoc { nodes, items }
    }

    fn add_item(nodes: &mut Vec<Node>, items: &mut Vec<NodeId>, text: &str)
        requires
            laid_out(nodes_v(old(nodes)@), 0),
            side_by_side(nodes_v(old(nodes)@), old(items)@, 0),
        ensures
            (DocV { nodes: nodes_v(final(nodes)@), items: final(items)@ }) == with_item(
                DocV { nodes: nodes_v(old(nodes)@), items: old(items)@ },
                text@,
            ),
            laid_out(nodes_v(final(nodes)@), 0),
            side_by_side(nodes_v(final(nodes)@), final(items)@, 0),
    {
        let id = nodes.len();
        let ghost before = nodes@;
        let ghost listed = items@;
        let node = match read_string(text) {
            Some(s) => new_leaf(Kind::Text, s),
            None => match read_fields(text) {
                None => {
                    return;
                },
                Some(f) => match find_string(&f, "type") {
                    None => {
                        return;
                    },
                    Some(t) => {
                        let t = chars_of(t.as_str());
                        if is_text(t.as_slice(), "text") {
                            match find_string(&f, "text") {
                                Some(s) => new_leaf(Kind::Text, s),
                                None => {
                                    return;
                                },
                            }
                        } else if is_text(t.as_slice(), "image") {
                            read_node(&f, "img")
                        } else if is_text(t.as_slice(), "structured-content") {
                            let g = new_leaf(Kind::Element, String::new());
                            assert(g.v() =~= group());
                            assert(g.v().children.len() == 0);
                            let content = find_field(&f, "content");
                            let _ids = add_node(nodes, g, content, 0);
                            items.push(id);
                            proof {
                                more_stands_behind(
                                    nodes_v(before),
                                    listed,
                                    nodes_v(nodes@),
                                    _ids@,
                                    0,
                                );
                                assert(items@ =~= listed + _ids@);
                            }
                            return;
                        } else {
                            return;
                        }
                    },
                },
            },
        };
        assert(node.v().children.len() == 0);
        nodes.push(node);
        items.push(id);
        assert(nodes_v(nodes@) =~= nodes_v(before).push(node.v()));
        proof {
            a_leaf_stands_alone(nodes_v(before), node.v());
            more_stands_behind(
                nodes_v(before),
                listed,
                nodes_v(nodes@),
                seq![id],
                0,
            );
            assert(items@ =~= listed + seq![id]);
        }
    }
}

// ---- plain text ----

/// Is this node a part-of-speech label, which the card shows in a field of
/// its own?
pub open spec fn is_label(n: NodeV) -> bool {
    exists|k: int|
        0 <= k < n.data.len() && #[trigger] n.data[k] == ("content"@, ScalarV::Text(
            "part-of-speech-info"@,
        ))
}

fn label(n: &Node) -> (r: bool)
    ensures
        r == is_label(n.v()),
{
    let mut k: usize = 0;
    while k < n.data.len()
        invariant
            k <= n.data@.len(),
            forall|j: int|
                0 <= j < k ==> #[trigger] n.v().data[j] != ("content"@, ScalarV::Text(
                    "part-of-speech-info"@,
                )),
        decreases n.data@.len() - k,
    {
        assert(n.v().data[k as int] == (n.data@[k as int].0@, n.data@[k as int].1.v()));
        if same_str(n.data[k].0.as_str(), "content") {
            match scalar_str(&n.data[k].1) {
                Some(t) => {
                    if same_str(t, "part-of-speech-info") {
                        return true;
                    }
                },
                None => {},
            }
        }
        k += 1;
    }
    false
}

/// The text under a node: text as it is, a line break as a newline, images
/// and, unless they are asked for, labels left out.
pub open spec fn text_under(doc: DocV, id: int, labels: bool) -> Seq<char>
    decreases doc.nodes.len() - id, 1int, 0int,
{
    if id < 0 || id >= doc.nodes.len() {
        seq![]
    } else {
        let n = doc.nodes[id];
        match n.kind {
            Kind::Text => n.text,
            Kind::Break => seq!['\n'],
            Kind::Image => seq![],
            Kind::Element => if is_label(n) && !labels {
                seq![]
            } else {
                text_of_kids(doc, id, n.children.len() as int, labels)
            },
        }
    }
}

/// The text under the first `k` children of a node.
pub open spec fn text_of_kids(doc: DocV, id: int, k: int, labels: bool) -> Seq<char>
    decreases doc.nodes.len() - id, 0int, k,
{
    if id < 0 || id >= doc.nodes.len() || k <= 0 || k > doc.nodes[id].children.len()
        || doc.nodes[id].children[k - 1] <= id || doc.nodes[id].children[k - 1] >= doc.nodes.len() {
        seq![]
    } else {
        text_of_kids(doc, id, k - 1, labels) + text_under(
            doc,
            doc.nodes[id].children[k - 1] as int,
            labels,
        )
    }
}

fn push_text(doc: &GlossDoc, id: NodeId, labels: bool, out: &mut Vec<char>)
    requires
        id < doc@.nodes.len(),
    ensures
        final(out)@ == old(out)@ + text_under(doc@, id as int, labels),
    decreases doc@.nodes.len() - id,
{
    let n = doc.node(id);
    let ghost before = out@;
    match n.kind {
        Kind::Text => {
            let t = chars_of(n.text.as_str());
            push_chars(out, t.as_slice());
        },
        Kind::Break => {
            out.push('\n');
            assert(out@ =~= before + seq!['\n']);
        },
        Kind::Image => {
            assert(before + seq![] =~= before);
        },
        Kind::Element => {
            if label(n) && !labels {
                assert(before + seq![] =~= before);
                return;
            }
            let kids = doc.children(id);
            let mut k: usize = 0;
            assert(before + text_of_kids(doc@, id as int, 0, labels) =~= before);
            while k < kids.len()
                invariant
                    id < doc@.nodes.len(),
                    doc@.wf(),
                    kids@ == doc@.nodes[id as int].children,
                    k <= kids@.len(),
                    out@ == before + text_of_kids(doc@, id as int, k as int, labels),
                decreases kids@.len() - k,
            {
                assert(id < doc@.nodes[id as int].children[k as int] < doc@.nodes.len());
                let ghost so_far = text_of_kids(doc@, id as int, k as int, labels);
                push_text(doc, kids[k], labels, out);
                assert(out@ =~= before + (so_far + text_under(doc@, kids@[k as int] as int, labels)));
                k += 1;
            }
        },
    }
}

/// One plain text for each item.
pub open spec fn plain(doc: DocV) -> Seq<Seq<char>> {
    Seq::new(doc.items.len(), |i: int| text_under(doc, doc.items[i] as int, false))
}

/// One plain-text gloss for each glossary item.
pub fn plain_items(doc: &GlossDoc) -> (r: Vec<String>)
    ensures
        strs(r@) == plain(doc@),
{
    let items = doc.items();
    let mut out: Vec<String> = Vec::new();
    let mut i: usize = 0;
    while i < items.len()
        invariant
            i <= items@.len(),
            items@ == doc@.items,
            doc@.wf(),
            strs(out@) == plain(doc@).take(i as int),
        decreases items@.len() - i,
    {
        let mut t: Vec<char> = Vec::new();
        assert(doc@.items[i as int] < doc@.nodes.len());
        push_text(doc, items[i], false, &mut t);
        assert(t@ =~= text_under(doc@, items@[i as int] as int, false));
        let ghost before = strs(out@);
        let one = string_of(t.as_slice());
        out.push(one);
        assert(strs(out@) =~= before.push(one@));
        assert(plain(doc@).take(i + 1) =~= plain(doc@).take(i as int).push(one@));
        i += 1;
    }
    assert(plain(doc@).take(i as int) =~= plain(doc@));
    out
}

/// The label texts of the first `n` nodes, in parse order.
pub open spec fn labels_upto(doc: DocV, n: int) -> Seq<Seq<char>>
    decreases n,
{
    if n <= 0 {
        seq![]
    } else if is_label(doc.nodes[n - 1]) {
        labels_upto(doc, n - 1).push(text_under(doc, n - 1, true))
    } else {
        labels_upto(doc, n - 1)
    }
}

/// Every part-of-speech label of a document.
pub open spec fn labels_of(doc: DocV) -> Seq<Seq<char>> {
    labels_upto(doc, doc.nodes.len() as int)
}

/// The part-of-speech labels of a document, in parse order.
pub fn pos_labels(doc: &GlossDoc) -> (r: Vec<String>)
    ensures
        strs(r@) == labels_of(doc@),
{
    let n = doc.all_nodes().len();
    let mut out: Vec<String> = Vec::new();
    assert(strs(out@) =~= seq![]);
    let mut i: usize = 0;
    while i < n
        invariant
            i <= n,
            n == doc@.nodes.len(),
            strs(out@) == labels_upto(doc@, i as int),
        decreases n - i,
    {
        if label(doc.node(i)) {
            let mut t: Vec<char> = Vec::new();
            push_text(doc, i, true, &mut t);
            assert(t@ =~= text_under(doc@, i as int, true));
            let ghost before = strs(out@);
            let one = string_of(t.as_slice());
            out.push(one);
            assert(strs(out@) =~= before.push(one@));
        }
        i += 1;
    }
    out
}

// ---- what a glossary says ----

/// A `data` record is the object's scalars: a value is under a key exactly
/// where a field with that key holds it.
pub proof fn every_scalar_is_kept(f: Seq<(Seq<char>, Seq<char>)>, key: Seq<char>, v: ScalarV)
    ensures
        data_of(f).contains((key, v)) <==> exists|k: int|
            0 <= k < f.len() && (#[trigger] f[k]).0 == key && scalar_of(f[k].1) == Some(v),
        data_of(f).len() <= f.len(),
    decreases f.len(),
{
    if f.len() > 0 {
        let front = f.drop_last();
        every_scalar_is_kept(front, key, v);
        let before = data_of(front);
        let all = data_of(f);
        let n = f.len() - 1;
        if all.contains((key, v)) {
            let j = choose|j: int| 0 <= j < all.len() && all[j] == (key, v);
            if j < before.len() {
                assert(before[j] == (key, v));
                let k = choose|k: int|
                    0 <= k < front.len() && (#[trigger] front[k]).0 == key && scalar_of(front[k].1)
                        == Some(v);
                assert(f[k] == front[k]);
            } else {
                assert(f[n].0 == key);
            }
        }
        if exists|k: int| 0 <= k < f.len() && (#[trigger] f[k]).0 == key && scalar_of(f[k].1) == Some(
            v,
        ) {
            let k = choose|k: int|
                0 <= k < f.len() && (#[trigger] f[k]).0 == key && scalar_of(f[k].1) == Some(v);
            if k < n {
                assert(front[k] == f[k]);
                let j = choose|j: int| 0 <= j < before.len() && before[j] == (key, v);
                assert(all[j] == (key, v));
            } else {
                assert(all[before.len() as int] == (key, v));
            }
        }
    }
}

/// An inline `style` record is the object's scalars under the properties that
/// are known.
pub proof fn every_known_property_is_kept(
    f: Seq<(Seq<char>, Seq<char>)>,
    key: StyleKey,
    v: ScalarV,
)
    ensures
        inline_of(f).contains((key, v)) <==> exists|k: int|
            0 <= k < f.len() && style_named((#[trigger] f[k]).0) == Some(key) && scalar_of(f[k].1)
                == Some(v),
    decreases f.len(),
{
    if f.len() > 0 {
        let front = f.drop_last();
        every_known_property_is_kept(front, key, v);
        let before = inline_of(front);
        let all = inline_of(f);
        let n = f.len() - 1;
        if all.contains((key, v)) {
            let j = choose|j: int| 0 <= j < all.len() && all[j] == (key, v);
            if j < before.len() {
                assert(before[j] == (key, v));
                let k = choose|k: int|
                    0 <= k < front.len() && style_named((#[trigger] front[k]).0) == Some(key)
                        && scalar_of(front[k].1) == Some(v);
                assert(f[k] == front[k]);
            } else {
                assert(style_named(f[n].0) == Some(key));
            }
        }
        if exists|k: int|
            0 <= k < f.len() && style_named((#[trigger] f[k]).0) == Some(key) && scalar_of(f[k].1)
                == Some(v) {
            let k = choose|k: int|
                0 <= k < f.len() && style_named((#[trigger] f[k]).0) == Some(key) && scalar_of(f[k].1)
                    == Some(v);
            if k < n {
                assert(front[k] == f[k]);
                let j = choose|j: int| 0 <= j < before.len() && before[j] == (key, v);
                assert(all[j] == (key, v));
            } else {
                assert(all[before.len() as int] == (key, v));
            }
        }
    }
}

/// Is a tagged object a part-of-speech label: does its `data` say so under
/// `content`?
pub open spec fn labelled(f: Seq<(Seq<char>, Seq<char>)>) -> bool {
    exists|k: int|
        0 <= k < object_at(f, "data"@).len() && (#[trigger] object_at(f, "data"@)[k]).0 == "content"@
            && scalar_of(object_at(f, "data"@)[k].1) == Some(ScalarV::Text("part-of-speech-info"@))
}

/// What content says, read straight from its JSON text: a string itself, a
/// list its parts in turn, a line break a newline, an image nothing, a label
/// nothing unless labels are asked for, and any other object its content.
pub open spec fn said(text: Seq<char>, depth: int, labels: bool) -> Seq<char>
    decreases MAX_DEPTH + 1 - depth, 1int, 0int,
    when 0 <= depth <= MAX_DEPTH + 1
{
    if depth > MAX_DEPTH {
        seq![]
    } else {
        match json_string(text) {
            Some(s) => s,
            None => match json_list(text) {
                Some(parts) => said_in_turn(parts, parts.len() as int, depth + 1, labels),
                None => match json_fields(text) {
                    None => seq![],
                    Some(f) => match string_field(f, "tag"@) {
                        None => seq![],
                        Some(name) => if name == "br"@ {
                            seq!['\n']
                        } else if name == "img"@ || (labelled(f) && !labels) {
                            seq![]
                        } else {
                            match field(f, "content"@) {
                                Some(c) => said(c, depth + 1, labels),
                                None => seq![],
                            }
                        },
                    },
                },
            },
        }
    }
}

/// What the first `n` parts of a list say, one behind the other.
pub open spec fn said_in_turn(parts: Seq<Seq<char>>, n: int, depth: int, labels: bool) -> Seq<char>
    decreases MAX_DEPTH + 1 - depth, 2int, n,
    when 0 <= depth <= MAX_DEPTH + 1
{
    if n <= 0 {
        seq![]
    } else {
        said_in_turn(parts, n - 1, depth, labels) + said(parts[n - 1], depth, labels)
    }
}

/// What a glossary item says, where it is one.
pub open spec fn said_item(text: Seq<char>) -> Option<Seq<char>> {
    match json_string(text) {
        Some(s) => Some(s),
        None => match json_fields(text) {
            None => None,
            Some(f) => match string_field(f, "type"@) {
                None => None,
                Some(t) => if t == "text"@ {
                    string_field(f, "text"@)
                } else if t == "image"@ {
                    Some(seq![])
                } else if t == "structured-content"@ {
                    Some(
                        match field(f, "content"@) {
                            Some(c) => said(c, 1, false),
                            None => seq![],
                        },
                    )
                } else {
                    None
                },
            },
        },
    }
}

/// What the first `n` items of a glossary say, those that are none left out.
pub open spec fn said_items(parts: Seq<Seq<char>>, n: int) -> Seq<Seq<char>>
    decreases n,
{
    if n <= 0 {
        seq![]
    } else {
        match said_item(parts[n - 1]) {
            Some(s) => said_items(parts, n - 1).push(s),
            None => said_items(parts, n - 1),
        }
    }
}

/// The text under some nodes, one behind the other.
spec fn texts_under(doc: DocV, ids: Seq<usize>, n: int, labels: bool) -> Seq<char>
    decreases n,
{
    if n <= 0 {
        seq![]
    } else {
        texts_under(doc, ids, n - 1, labels) + text_under(doc, ids[n - 1] as int, labels)
    }
}

/// Do the nodes from `from` on have their children behind them?
spec fn behind(nodes: Seq<NodeV>, from: int) -> bool {
    forall|i: int, j: int|
        #![trigger nodes[i].children[j]]
        from <= i < nodes.len() && 0 <= j < nodes[i].children.len() ==> i < nodes[i].children[j]
            < nodes.len()
}

proof fn text_is_kept(a: DocV, b: DocV, from: int, id: int, labels: bool)
    requires
        0 <= from <= id < a.nodes.len() <= b.nodes.len(),
        forall|i: int| from <= i < a.nodes.len() ==> #[trigger] a.nodes[i] == b.nodes[i],
        behind(a.nodes, from),
    ensures
        text_under(a, id, labels) == text_under(b, id, labels),
    decreases a.nodes.len() - id, 1int, 0int,
{
    assert(a.nodes[id] == b.nodes[id]);
    kids_are_kept(a, b, from, id, a.nodes[id].children.len() as int, labels);
}

proof fn kids_are_kept(a: DocV, b: DocV, from: int, id: int, k: int, labels: bool)
    requires
        0 <= from <= id < a.nodes.len() <= b.nodes.len(),
        forall|i: int| from <= i < a.nodes.len() ==> #[trigger] a.nodes[i] == b.nodes[i],
        behind(a.nodes, from),
        k <= a.nodes[id].children.len(),
    ensures
        text_of_kids(a, id, k, labels) == text_of_kids(b, id, k, labels),
    decreases a.nodes.len() - id, 0int, k,
{
    assert(a.nodes[id] == b.nodes[id]);
    if k > 0 {
        let c = a.nodes[id].children[k - 1] as int;
        assert(id < c < a.nodes.len());
        kids_are_kept(a, b, from, id, k - 1, labels);
        text_is_kept(a, b, from, c, labels);
    }
}

proof fn texts_are_kept(a: DocV, b: DocV, from: int, ids: Seq<usize>, n: int, labels: bool)
    requires
        0 <= from,
        a.nodes.len() <= b.nodes.len(),
        0 <= n <= ids.len(),
        forall|k: int| 0 <= k < ids.len() ==> from <= #[trigger] ids[k] < a.nodes.len(),
        forall|i: int| from <= i < a.nodes.len() ==> #[trigger] a.nodes[i] == b.nodes[i],
        behind(a.nodes, from),
    ensures
        texts_under(a, ids, n, labels) == texts_under(b, ids, n, labels),
    decreases n,
{
    if n > 0 {
        texts_are_kept(a, b, from, ids, n - 1, labels);
        text_is_kept(a, b, from, ids[n - 1] as int, labels);
    }
}

proof fn kids_are_texts(doc: DocV, id: int, k: int, labels: bool)
    requires
        0 <= id < doc.nodes.len(),
        0 <= k <= doc.nodes[id].children.len(),
        behind(doc.nodes, id),
    ensures
        text_of_kids(doc, id, k, labels) == texts_under(doc, doc.nodes[id].children, k, labels),
    decreases k,
{
    if k > 0 {
        assert(id < doc.nodes[id].children[k - 1] < doc.nodes.len());
        kids_are_texts(doc, id, k - 1, labels);
    }
}

proof fn texts_join(doc: DocV, a: Seq<usize>, b: Seq<usize>, n: int, labels: bool)
    requires
        0 <= n <= b.len(),
    ensures
        texts_under(doc, a + b, a.len() + n, labels) == texts_under(
            doc,
            a,
            a.len() as int,
            labels,
        ) + texts_under(doc, b, n, labels),
    decreases n,
{
    if n > 0 {
        texts_join(doc, a, b, n - 1, labels);
        assert((a + b)[a.len() + n - 1] == b[n - 1]);
        let x = texts_under(doc, a, a.len() as int, labels);
        let y = texts_under(doc, b, n - 1, labels);
        let z = text_under(doc, b[n - 1] as int, labels);
        assert((x + y) + z =~= x + (y + z));
    } else {
        firsts_join(doc, a, b, a.len() as int, labels);
        assert(texts_under(doc, a, a.len() as int, labels) + seq![] =~= texts_under(
            doc,
            a,
            a.len() as int,
            labels,
        ));
    }
}

proof fn firsts_join(doc: DocV, a: Seq<usize>, b: Seq<usize>, n: int, labels: bool)
    requires
        0 <= n <= a.len(),
    ensures
        texts_under(doc, a + b, n, labels) == texts_under(doc, a, n, labels),
    decreases n,
{
    if n > 0 {
        firsts_join(doc, a, b, n - 1, labels);
        assert((a + b)[n - 1] == a[n - 1]);
    }
}

/// Are more nodes there, the old ones as they were, and do the new ones under
/// some ids say a text?
spec fn says(
    nodes: Seq<NodeV>,
    all: Seq<NodeV>,
    ids: Seq<usize>,
    labels: bool,
    text: Seq<char>,
) -> bool {
    &&& nodes.len() <= all.len()
    &&& forall|i: int| 0 <= i < nodes.len() ==> #[trigger] all[i] == nodes[i]
    &&& behind(all, nodes.len() as int)
    &&& forall|k: int| 0 <= k < ids.len() ==> nodes.len() <= #[trigger] ids[k] < all.len()
    &&& texts_under(DocV { nodes: all, items: seq![] }, ids, ids.len() as int, labels) == text
}

proof fn content_grows(nodes: Seq<NodeV>, text: Seq<char>, depth: int)
    requires
        0 <= depth <= MAX_DEPTH + 1,
    ensures
        nodes.len() <= with_content(nodes, text, depth).0.len(),
    decreases MAX_DEPTH + 1 - depth, 1int, 0int,
{
    if depth <= MAX_DEPTH && json_string(text) is None {
        match json_list(text) {
            Some(parts) => parts_grow(nodes, parts, parts.len() as int, depth + 1),
            None => if let Some(f) = json_fields(text) {
                if let Some(name) = string_field(f, "tag"@) {
                    if let Some(c) = field(f, "content"@) {
                        content_grows(nodes.push(node_of(f, name)), c, depth + 1);
                    }
                }
            },
        }
    }
}

proof fn parts_grow(nodes: Seq<NodeV>, parts: Seq<Seq<char>>, n: int, depth: int)
    requires
        0 <= depth <= MAX_DEPTH + 1,
    ensures
        nodes.len() <= with_parts(nodes, parts, n, depth).0.len(),
    decreases MAX_DEPTH + 1 - depth, 2int, n,
{
    if n > 0 {
        parts_grow(nodes, parts, n - 1, depth);
        content_grows(with_parts(nodes, parts, n - 1, depth).0, parts[n - 1], depth);
    }
}

proof fn a_leaf_says(nodes: Seq<NodeV>, node: NodeV, labels: bool)
    requires
        nodes.len() < usize::MAX,
        node.children.len() == 0,
    ensures
        says(
            nodes,
            nodes.push(node),
            seq![nodes.len() as usize],
            labels,
            match node.kind {
                Kind::Text => node.text,
                Kind::Break => seq!['\n'],
                _ => seq![],
            },
        ),
{
    let all = nodes.push(node);
    let doc = DocV { nodes: all, items: seq![] };
    let ids = seq![nodes.len() as usize];
    reveal_with_fuel(texts_under, 2);
    assert(texts_under(doc, ids, 1, labels) =~= text_under(doc, nodes.len() as int, labels));
    assert(text_of_kids(doc, nodes.len() as int, 0, labels) =~= seq![]);
}

proof fn a_node_says_its_content(
    nodes: Seq<NodeV>,
    node: NodeV,
    c: Seq<char>,
    depth: int,
    labels: bool,
    text: Seq<char>,
)
    requires
        0 <= depth <= MAX_DEPTH,
        node.children.len() == 0,
        node.kind != Kind::Text,
        with_content(nodes.push(node), c, depth + 1).0.len() < usize::MAX,
        says(
            nodes.push(node),
            with_content(nodes.push(node), c, depth + 1).0,
            with_content(nodes.push(node), c, depth + 1).1,
            labels,
            text,
        ),
    ensures
        says(
            nodes,
            with_node(nodes, node, Some(c), depth).0,
            with_node(nodes, node, Some(c), depth).1,
            labels,
            if node.kind == Kind::Break {
                seq!['\n']
            } else if node.kind == Kind::Image || (is_label(node) && !labels) {
                seq![]
            } else {
                text
            },
        ),
{
    let id = nodes.len() as int;
    let (inner, kids) = with_content(nodes.push(node), c, depth + 1);
    let over = NodeV { children: kids, ..node };
    let all = inner.update(id, over);
    let a = DocV { nodes: inner, items: seq![] };
    let b = DocV { nodes: all, items: seq![] };
    assert forall|i: int, j: int|
        #![trigger all[i].children[j]]
        id <= i < all.len() && 0 <= j < all[i].children.len() implies i < all[i].children[j]
        < all.len() by {
        if i == id {
            assert(id + 1 <= kids[j] < inner.len());
        } else {
            assert(i < inner[i].children[j] < inner.len());
        }
    }
    assert forall|i: int| 0 <= i < nodes.len() implies #[trigger] all[i] == nodes[i] by {
        assert(inner[i] == nodes.push(node)[i]);
    }
    texts_are_kept(a, b, id + 1, kids, kids.len() as int, labels);
    kids_are_texts(b, id, kids.len() as int, labels);
    assert(over.data == node.data);
    if is_label(over) {
        let k = choose|k: int|
            0 <= k < over.data.len() && #[trigger] over.data[k] == ("content"@, ScalarV::Text(
                "part-of-speech-info"@,
            ));
        assert(node.data[k] == over.data[k]);
    }
    if is_label(node) {
        let k = choose|k: int|
            0 <= k < node.data.len() && #[trigger] node.data[k] == ("content"@, ScalarV::Text(
                "part-of-speech-info"@,
            ));
        assert(over.data[k] == node.data[k]);
    }
    let ids = seq![id as usize];
    reveal_with_fuel(texts_under, 2);
    assert(texts_under(b, ids, 1, labels) =~= text_under(b, id, labels));
    assert(all[id] == over);
}

/// The `data` of a tagged object makes its node a label exactly where it says
/// so.
proof fn a_label_says_so(f: Seq<(Seq<char>, Seq<char>)>, name: Seq<char>)
    requires
        name != "br"@,
    ensures
        is_label(node_of(f, name)) <==> labelled(f),
{
    let o = object_at(f, "data"@);
    let want = ("content"@, ScalarV::Text("part-of-speech-info"@));
    every_scalar_is_kept(o, "content"@, ScalarV::Text("part-of-speech-info"@));
    let data = node_of(f, name).data;
    assert(data == data_of(o));
    if is_label(node_of(f, name)) {
        let k = choose|k: int| 0 <= k < data.len() && #[trigger] data[k] == want;
        assert(data.contains(want));
    }
    if labelled(f) {
        let k = choose|k: int| 0 <= k < data.len() && data[k] == want;
        assert(data[k] == want);
    }
}

proof fn content_says(nodes: Seq<NodeV>, text: Seq<char>, depth: int, labels: bool)
    requires
        0 <= depth <= MAX_DEPTH + 1,
        with_content(nodes, text, depth).0.len() < usize::MAX,
    ensures
        says(
            nodes,
            with_content(nodes, text, depth).0,
            with_content(nodes, text, depth).1,
            labels,
            said(text, depth, labels),
        ),
    decreases MAX_DEPTH + 1 - depth, 1int, 0int,
{
    if depth <= MAX_DEPTH {
        match json_string(text) {
            Some(s) => {
                a_leaf_says(nodes, leaf(Kind::Text, s), labels);
            },
            None => match json_list(text) {
                Some(parts) => {
                    parts_say(nodes, parts, parts.len() as int, depth + 1, labels);
                },
                None => if let Some(f) = json_fields(text) {
                    if let Some(name) = string_field(f, "tag"@) {
                        let node = node_of(f, name);
                        names_apart();
                        if name != "br"@ {
                            a_label_says_so(f, name);
                        }
                        match field(f, "content"@) {
                            Some(c) => {
                                content_grows(nodes.push(node), c, depth + 1);
                                content_says(nodes.push(node), c, depth + 1, labels);
                                a_node_says_its_content(
                                    nodes,
                                    node,
                                    c,
                                    depth,
                                    labels,
                                    said(c, depth + 1, labels),
                                );
                            },
                            None => {
                                a_leaf_says(nodes, node, labels);
                            },
                        }
                    }
                },
            },
        }
    }
}

proof fn parts_say(nodes: Seq<NodeV>, parts: Seq<Seq<char>>, n: int, depth: int, labels: bool)
    requires
        0 <= depth <= MAX_DEPTH + 1,
        with_parts(nodes, parts, n, depth).0.len() < usize::MAX,
    ensures
        says(
            nodes,
            with_parts(nodes, parts, n, depth).0,
            with_parts(nodes, parts, n, depth).1,
            labels,
            said_in_turn(parts, n, depth, labels),
        ),
    decreases MAX_DEPTH + 1 - depth, 2int, n,
{
    if n > 0 {
        let (before, ids) = with_parts(nodes, parts, n - 1, depth);
        let (after, more) = with_content(before, parts[n - 1], depth);
        content_grows(before, parts[n - 1], depth);
        parts_say(nodes, parts, n - 1, depth, labels);
        content_says(before, parts[n - 1], depth, labels);
        let a = DocV { nodes: before, items: seq![] };
        let b = DocV { nodes: after, items: seq![] };
        texts_are_kept(a, b, nodes.len() as int, ids, ids.len() as int, labels);
        texts_join(b, ids, more, more.len() as int, labels);
        let all = ids + more;
        assert forall|k: int| 0 <= k < all.len() implies nodes.len() <= #[trigger] all[k]
            < after.len() by {
            if k < ids.len() {
                assert(nodes.len() <= ids[k] < before.len());
            } else {
                assert(before.len() <= more[k - ids.len()] < after.len());
            }
        }
        assert forall|i: int, j: int|
            #![trigger after[i].children[j]]
            nodes.len() <= i < after.len() && 0 <= j < after[i].children.len() implies i
            < after[i].children[j] < after.len() by {
            if i < before.len() {
                assert(after[i] == before[i]);
                assert(i < before[i].children[j] < before.len());
            }
        }
        assert forall|i: int| 0 <= i < nodes.len() implies #[trigger] after[i] == nodes[i] by {
            assert(after[i] == before[i]);
        }
    }
}

proof fn names_apart()
    ensures
        "br"@ != "img"@,
{
    reveal_strlit("br");
    reveal_strlit("img");
    assert("br"@.len() == 2);
    assert("img"@.len() == 3);
}

/// The text of each item of a parsed glossary is what its JSON says, read
/// straight through: the tree and the renderer that walks it add nothing,
/// lose nothing and turn nothing round.
pub proof fn a_glossary_says_what_its_json_says(parts: Seq<Seq<char>>, n: int)
    requires
        0 <= n <= parts.len(),
        items_of(parts, n).nodes.len() < usize::MAX,
    ensures
        plain(items_of(parts, n)) == said_items(parts, n),
        behind_all(items_of(parts, n)),
    decreases n,
{
    if n > 0 {
        let doc = items_of(parts, n - 1);
        let now = items_of(parts, n);
        let text = parts[n - 1];
        item_grows(doc, text);
        a_glossary_says_what_its_json_says(parts, n - 1);
        item_says(doc, text);
        assert forall|k: int| 0 <= k < doc.items.len() implies text_under(
            doc,
            doc.items[k] as int,
            false,
        ) == text_under(now, #[trigger] now.items[k] as int, false) by {
            assert(doc.items[k] == now.items[k]);
            text_is_kept(doc, now, 0, doc.items[k] as int, false);
        }
        assert(plain(now) =~= said_items(parts, n));
    } else {
        assert(plain(items_of(parts, n)) =~= seq![]);
    }
}

/// Does every id of a document name one of its nodes, and every child stand
/// behind its parent?
pub open spec fn behind_all(doc: DocV) -> bool {
    &&& forall|i: int, j: int|
        #![trigger doc.nodes[i].children[j]]
        0 <= i < doc.nodes.len() && 0 <= j < doc.nodes[i].children.len() ==> i
            < doc.nodes[i].children[j] < doc.nodes.len()
    &&& forall|k: int| 0 <= k < doc.items.len() ==> 0 <= #[trigger] doc.items[k] < doc.nodes.len()
}

proof fn item_grows(doc: DocV, text: Seq<char>)
    ensures
        doc.nodes.len() <= with_item(doc, text).nodes.len(),
{
    if json_string(text) is None {
        if let Some(f) = json_fields(text) {
            if let Some(c) = field(f, "content"@) {
                content_grows(doc.nodes.push(group()), c, 1);
            }
        }
    }
}

proof fn item_says(doc: DocV, text: Seq<char>)
    requires
        behind_all(doc),
        with_item(doc, text).nodes.len() < usize::MAX,
    ensures
        behind_all(with_item(doc, text)),
        forall|i: int|
            0 <= i < doc.nodes.len() ==> #[trigger] with_item(doc, text).nodes[i] == doc.nodes[i],
        match said_item(text) {
            None => with_item(doc, text) == doc,
            Some(s) => {
                let now = with_item(doc, text);
                &&& now.items.len() == doc.items.len() + 1
                &&& forall|k: int| 0 <= k < doc.items.len() ==> #[trigger] now.items[k] == doc.items[k]
                &&& text_under(now, now.items[doc.items.len() as int] as int, false) == s
            },
        },
{
    let now = with_item(doc, text);
    let id = doc.nodes.len() as int;
    names_apart();
    match json_string(text) {
        Some(s) => {
            a_leaf_says(doc.nodes, leaf(Kind::Text, s), false);
            one_says(doc, now, s);
        },
        None => if let Some(f) = json_fields(text) {
            if let Some(t) = string_field(f, "type"@) {
                if t == "text"@ {
                    if let Some(s) = string_field(f, "text"@) {
                        a_leaf_says(doc.nodes, leaf(Kind::Text, s), false);
                        one_says(doc, now, s);
                    }
                } else if t == "image"@ {
                    a_leaf_says(doc.nodes, node_of(f, "img"@), false);
                    one_says(doc, now, seq![]);
                } else if t == "structured-content"@ {
                    assert(!is_label(group()));
                    match field(f, "content"@) {
                        Some(c) => {
                            content_grows(doc.nodes.push(group()), c, 1);
                            content_says(doc.nodes.push(group()), c, 1, false);
                            a_node_says_its_content(
                                doc.nodes,
                                group(),
                                c,
                                0,
                                false,
                                said(c, 1, false),
                            );
                            one_says(doc, now, said(c, 1, false));
                        },
                        None => {
                            a_leaf_says(doc.nodes, group(), false);
                            one_says(doc, now, seq![]);
                        },
                    }
                }
            }
        },
    }
}

proof fn one_says(doc: DocV, now: DocV, s: Seq<char>)
    requires
        behind_all(doc),
        now.nodes.len() < usize::MAX,
        now.items == doc.items.push(doc.nodes.len() as usize),
        says(doc.nodes, now.nodes, seq![doc.nodes.len() as usize], false, s),
    ensures
        behind_all(now),
        text_under(now, doc.nodes.len() as int, false) == s,
{
    let id = doc.nodes.len() as int;
    let bare = DocV { nodes: now.nodes, items: seq![] };
    let ids = seq![id as usize];
    assert(nodes_reach(now.nodes, ids));
    reveal_with_fuel(texts_under, 2);
    assert(texts_under(bare, ids, 1, false) =~= text_under(bare, id, false));
    text_is_kept(bare, now, id, id, false);
    assert forall|i: int, j: int|
        #![trigger now.nodes[i].children[j]]
        0 <= i < now.nodes.len() && 0 <= j < now.nodes[i].children.len() implies i
        < now.nodes[i].children[j] < now.nodes.len() by {
        if i < id {
            assert(now.nodes[i] == doc.nodes[i]);
            assert(i < doc.nodes[i].children[j] < doc.nodes.len());
        }
    }
    assert forall|k: int| 0 <= k < now.items.len() implies 0 <= #[trigger] now.items[k]
        < now.nodes.len() by {
        if k < doc.items.len() {
            assert(now.items[k] == doc.items[k]);
        }
    }
}

spec fn nodes_reach(nodes: Seq<NodeV>, ids: Seq<usize>) -> bool {
    0 <= ids[0] < nodes.len()
}

/// Every label of a document is told with all the text under it, in the order
/// of the document, and nothing else is.
pub proof fn every_label_is_told(doc: DocV, n: int, t: Seq<char>)
    requires
        0 <= n <= doc.nodes.len(),
    ensures
        labels_upto(doc, n).contains(t) <==> exists|i: int|
            0 <= i < n && t == text_under(doc, i, true) && (#[trigger] doc.nodes[i]).data.contains(
                ("content"@, ScalarV::Text("part-of-speech-info"@)),
            ),
    decreases n,
{
    let mark = ("content"@, ScalarV::Text("part-of-speech-info"@));
    if n > 0 {
        every_label_is_told(doc, n - 1, t);
        let before = labels_upto(doc, n - 1);
        let all = labels_upto(doc, n);
        let last = doc.nodes[n - 1];
        if is_label(last) {
            let k = choose|k: int| 0 <= k < last.data.len() && #[trigger] last.data[k] == mark;
            assert(last.data.contains(mark));
        }
        if last.data.contains(mark) {
            let k = choose|k: int| 0 <= k < last.data.len() && last.data[k] == mark;
            assert(last.data[k] == mark);
            assert(is_label(last));
        }
        if all.contains(t) {
            let j = choose|j: int| 0 <= j < all.len() && all[j] == t;
            if j < before.len() {
                assert(before[j] == t);
            } else {
                assert(doc.nodes[n - 1].data.contains(mark));
            }
        }
        if exists|i: int|
            0 <= i < n && t == text_under(doc, i, true) && (#[trigger] doc.nodes[i]).data.contains(
                mark,
            ) {
            let i = choose|i: int|
                0 <= i < n && t == text_under(doc, i, true) && (
                #[trigger] doc.nodes[i]).data.contains(mark);
            if i < n - 1 {
                let j = choose|j: int| 0 <= j < before.len() && before[j] == t;
                assert(all[j] == t);
            } else {
                assert(all[before.len() as int] == t);
            }
        }
    }
}

/// How a tag is written.
pub open spec fn tag_spelling(key: Tag) -> Seq<char> {
    match key {
        Tag::Ruby => "ruby"@,
        Tag::Rt => "rt"@,
        Tag::Rp => "rp"@,
        Tag::Table => "table"@,
        Tag::Thead => "thead"@,
        Tag::Tbody => "tbody"@,
        Tag::Tfoot => "tfoot"@,
        Tag::Tr => "tr"@,
        Tag::Td => "td"@,
        Tag::Th => "th"@,
        Tag::Span => "span"@,
        Tag::Div => "div"@,
        Tag::Ol => "ol"@,
        Tag::Ul => "ul"@,
        Tag::Li => "li"@,
        Tag::Details => "details"@,
        Tag::Summary => "summary"@,
        Tag::Img => "img"@,
        Tag::A => "a"@,
        _ => seq![],
    }
}

proof fn tag_spelling_names_apart()
    ensures
        "ruby"@.len() == 4,
        "rt"@.len() == 2,
        "rp"@.len() == 2,
        "table"@.len() == 5,
        "thead"@.len() == 5,
        "tbody"@.len() == 5,
        "tfoot"@.len() == 5,
        "tr"@.len() == 2,
        "td"@.len() == 2,
        "th"@.len() == 2,
        "span"@.len() == 4,
        "div"@.len() == 3,
        "ol"@.len() == 2,
        "ul"@.len() == 2,
        "li"@.len() == 2,
        "details"@.len() == 7,
        "summary"@.len() == 7,
        "img"@.len() == 3,
        "a"@.len() == 1,
        "details"@[0] == 'd',
        "div"@[0] == 'd',
        "img"@[0] == 'i',
        "li"@[0] == 'l',
        "ol"@[0] == 'o',
        "rp"@[0] == 'r',
        "rp"@[1] == 'p',
        "rt"@[0] == 'r',
        "rt"@[1] == 't',
        "ruby"@[0] == 'r',
        "span"@[0] == 's',
        "summary"@[0] == 's',
        "table"@[1] == 'a',
        "tbody"@[1] == 'b',
        "td"@[0] == 't',
        "td"@[1] == 'd',
        "tfoot"@[1] == 'f',
        "th"@[0] == 't',
        "th"@[1] == 'h',
        "thead"@[1] == 'h',
        "tr"@[0] == 't',
        "tr"@[1] == 'r',
        "ul"@[0] == 'u',
{
    reveal_strlit("ruby");
    reveal_strlit("rt");
    reveal_strlit("rp");
    reveal_strlit("table");
    reveal_strlit("thead");
    reveal_strlit("tbody");
    reveal_strlit("tfoot");
    reveal_strlit("tr");
    reveal_strlit("td");
    reveal_strlit("th");
    reveal_strlit("span");
    reveal_strlit("div");
    reveal_strlit("ol");
    reveal_strlit("ul");
    reveal_strlit("li");
    reveal_strlit("details");
    reveal_strlit("summary");
    reveal_strlit("img");
    reveal_strlit("a");
}

/// Every tag of the schema is read from the way it is written.
pub proof fn every_tag_reads_back(key: Tag)
    requires
        key != Tag::Untagged,
        key != Tag::Other,
    ensures
        tag_named(tag_spelling(key)) == Some(key),
{
    tag_spelling_names_apart();
}

/// How an inline style record writes a property.
pub open spec fn camel_spelling(key: StyleKey) -> Seq<char> {
    match key {
        StyleKey::FontStyle => "fontStyle"@,
        StyleKey::FontWeight => "fontWeight"@,
        StyleKey::FontSize => "fontSize"@,
        StyleKey::TextDecorationLine => "textDecorationLine"@,
        StyleKey::TextDecorationStyle => "textDecorationStyle"@,
        StyleKey::TextDecorationColor => "textDecorationColor"@,
        StyleKey::VerticalAlign => "verticalAlign"@,
        StyleKey::TextAlign => "textAlign"@,
        StyleKey::WhiteSpace => "whiteSpace"@,
        StyleKey::WordBreak => "wordBreak"@,
        StyleKey::Cursor => "cursor"@,
        StyleKey::ListStyleType => "listStyleType"@,
        StyleKey::Color => "color"@,
        StyleKey::BackgroundColor => "backgroundColor"@,
        StyleKey::BorderColor => "borderColor"@,
        StyleKey::BorderStyle => "borderStyle"@,
        StyleKey::BorderRadius => "borderRadius"@,
        StyleKey::BorderWidth => "borderWidth"@,
        StyleKey::Margin => "margin"@,
        StyleKey::MarginTop => "marginTop"@,
        StyleKey::MarginRight => "marginRight"@,
        StyleKey::MarginBottom => "marginBottom"@,
        StyleKey::MarginLeft => "marginLeft"@,
        StyleKey::Padding => "padding"@,
        StyleKey::PaddingTop => "paddingTop"@,
        StyleKey::PaddingRight => "paddingRight"@,
        StyleKey::PaddingBottom => "paddingBottom"@,
        StyleKey::PaddingLeft => "paddingLeft"@,
    }
}

proof fn camel_spelling_names_apart()
    ensures
        "fontStyle"@.len() == 9,
        "fontWeight"@.len() == 10,
        "fontSize"@.len() == 8,
        "textDecorationLine"@.len() == 18,
        "textDecorationStyle"@.len() == 19,
        "textDecorationColor"@.len() == 19,
        "verticalAlign"@.len() == 13,
        "textAlign"@.len() == 9,
        "whiteSpace"@.len() == 10,
        "wordBreak"@.len() == 9,
        "cursor"@.len() == 6,
        "listStyleType"@.len() == 13,
        "color"@.len() == 5,
        "backgroundColor"@.len() == 15,
        "borderColor"@.len() == 11,
        "borderStyle"@.len() == 11,
        "borderRadius"@.len() == 12,
        "borderWidth"@.len() == 11,
        "margin"@.len() == 6,
        "marginTop"@.len() == 9,
        "marginRight"@.len() == 11,
        "marginBottom"@.len() == 12,
        "marginLeft"@.len() == 10,
        "padding"@.len() == 7,
        "paddingTop"@.len() == 10,
        "paddingRight"@.len() == 12,
        "paddingBottom"@.len() == 13,
        "paddingLeft"@.len() == 11,
        "borderColor"@[0] == 'b',
        "borderColor"@[6] == 'C',
        "borderRadius"@[0] == 'b',
        "borderStyle"@[0] == 'b',
        "borderStyle"@[6] == 'S',
        "borderWidth"@[0] == 'b',
        "borderWidth"@[6] == 'W',
        "cursor"@[0] == 'c',
        "fontStyle"@[0] == 'f',
        "fontWeight"@[0] == 'f',
        "listStyleType"@[0] == 'l',
        "margin"@[0] == 'm',
        "marginBottom"@[0] == 'm',
        "marginLeft"@[0] == 'm',
        "marginRight"@[0] == 'm',
        "marginTop"@[0] == 'm',
        "paddingBottom"@[0] == 'p',
        "paddingLeft"@[0] == 'p',
        "paddingRight"@[0] == 'p',
        "paddingTop"@[0] == 'p',
        "textAlign"@[0] == 't',
        "textDecorationColor"@[14] == 'C',
        "textDecorationStyle"@[14] == 'S',
        "verticalAlign"@[0] == 'v',
        "whiteSpace"@[0] == 'w',
        "wordBreak"@[0] == 'w',
{
    reveal_strlit("fontStyle");
    reveal_strlit("fontWeight");
    reveal_strlit("fontSize");
    reveal_strlit("textDecorationLine");
    reveal_strlit("textDecorationStyle");
    reveal_strlit("textDecorationColor");
    reveal_strlit("verticalAlign");
    reveal_strlit("textAlign");
    reveal_strlit("whiteSpace");
    reveal_strlit("wordBreak");
    reveal_strlit("cursor");
    reveal_strlit("listStyleType");
    reveal_strlit("color");
    reveal_strlit("backgroundColor");
    reveal_strlit("borderColor");
    reveal_strlit("borderStyle");
    reveal_strlit("borderRadius");
    reveal_strlit("borderWidth");
    reveal_strlit("margin");
    reveal_strlit("marginTop");
    reveal_strlit("marginRight");
    reveal_strlit("marginBottom");
    reveal_strlit("marginLeft");
    reveal_strlit("padding");
    reveal_strlit("paddingTop");
    reveal_strlit("paddingRight");
    reveal_strlit("paddingBottom");
    reveal_strlit("paddingLeft");
}

/// Every property is read from the way an inline style record writes it.
pub proof fn every_inline_property_reads_back(key: StyleKey)
    ensures
        style_named(camel_spelling(key)) == Some(key),
{
    camel_spelling_names_apart();
}

} // verus!
