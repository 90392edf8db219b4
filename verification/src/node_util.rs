//! Finding the prose of a document in its syntax tree, and flattening each
//! stretch of prose into clean text with a map back to the bytes it came from.

use crate::buffer::TextBuffer;
use vstd::prelude::*;
use vstd::string::StringExecFns;
use vstd::utf8::*;

verus! {

/// One run of clean text and the bytes `[start, end)` of the document that it
/// stands for.
pub struct TextChunk {
    pub clean_length: usize,
    pub start: usize,
    pub end: usize,
}

/// The clean text of one prose region, and the chunks that make it up.
pub struct TextRange {
    pub clean_text: String,
    pub chunks: Vec<TextChunk>,
}

/// The sum of the clean lengths of `chunks`.
pub open spec fn clean_total(chunks: Seq<TextChunk>) -> nat
    decreases chunks.len(),
{
    if chunks.len() == 0 {
        0
    } else {
        clean_total(chunks.drop_last()) + chunks.last().clean_length as nat
    }
}

/// Each chunk covers a range of the document that is not inverted, and each
/// ends before the next begins.
pub open spec fn ascending(chunks: Seq<TextChunk>) -> bool {
    &&& forall|i: int| 0 <= i < chunks.len() ==> (#[trigger] chunks[i]).start <= chunks[i].end
    &&& forall|i: int, j: int|
        0 <= i < j < chunks.len() ==> (#[trigger] chunks[i]).end <= (#[trigger] chunks[j]).start
}

impl TextRange {
    /// Every byte of the clean text is accounted for by exactly one chunk.
    pub open spec fn well_formed(&self) -> bool {
        clean_total(self.chunks@) == encode_utf8(self.clean_text@).len()
    }
}

/// A node of the syntax tree: its kind, the bytes of the document it covers,
/// and its children from left to right.
pub struct SyntaxNode {
    pub kind: u16,
    pub start: usize,
    pub end: usize,
    pub children: Vec<SyntaxNode>,
}

pub const SOFT_LINE_BREAK: u16 = 111;

pub const PARAGRAPH: u16 = 124;

pub const FRONTMATTER_HEADING: u16 = 129;

pub const INDENTED_CODE_BLOCK: u16 = 134;

pub const FENCED_CODE_BLOCK: u16 = 136;

pub const HEADING_CONTENT: u16 = 169;

pub const IMAGE: u16 = 185;

pub const LINK_DESTINATION: u16 = 190;

pub const CODE_SPAN: u16 = 200;

pub const HTML_OPEN_TAG: u16 = 201;

pub const HTML_SELF_CLOSING_TAG: u16 = 202;

pub const TEXT: u16 = 211;

pub const IMAGE_DESCRIPTION: u16 = 230;

pub const TABLE_CELL: u16 = 235;

/// What stands in the clean text for a code span.
pub open spec fn code_placeholder() -> Seq<char> {
    seq!['[', 'c', 'o', 'd', 'e', ']']
}

/// The kinds of node that add nothing to the clean text and are not looked
/// into.
pub open spec fn is_opaque_kind(kind: u16) -> bool {
    kind == LINK_DESTINATION || kind == IMAGE_DESCRIPTION || kind == FENCED_CODE_BLOCK || kind
        == INDENTED_CODE_BLOCK || kind == HTML_OPEN_TAG || kind == HTML_SELF_CLOSING_TAG || kind
        == IMAGE
}

/// The kinds of node whose text is checked as one piece of prose.
pub open spec fn is_region_kind(kind: u16) -> bool {
    kind == PARAGRAPH || kind == HEADING_CONTENT || kind == TABLE_CELL
}

impl SyntaxNode {
    /// The prose regions at or below this node, in document order. A region
    /// is not searched for further regions, and nothing below a frontmatter
    /// heading is a region.
    pub open spec fn regions(self) -> Seq<SyntaxNode>
        decreases self, self.children.len() + 1,
    {
        if is_region_kind(self.kind) {
            seq![self]
        } else if self.kind == FRONTMATTER_HEADING {
            Seq::empty()
        } else {
            self.regions_below(self.children.len() as int)
        }
    }

    /// The prose regions at or below the first `count` children of this node.
    pub open spec fn regions_below(self, count: int) -> Seq<SyntaxNode>
        decreases self, count,
    {
        if 0 < count <= self.children.len() {
            self.regions_below(count - 1) + self.children[count - 1].regions()
        } else {
            Seq::empty()
        }
    }

    /// The chunks that this node and the nodes below it add to a clean text.
    /// A text node adds its own bytes, a soft line break one space, a code
    /// span the placeholder; none of the three is looked into. An opaque
    /// node adds nothing. Any other node adds what its children add.
    pub open spec fn chunks(self) -> Seq<TextChunk>
        decreases self, self.children.len() + 1,
    {
        if is_opaque_kind(self.kind) {
            Seq::empty()
        } else if self.kind == TEXT {
            seq![
                TextChunk {
                    clean_length: (self.end - self.start) as usize,
                    start: self.start,
                    end: self.end,
                },
            ]
        } else if self.kind == SOFT_LINE_BREAK {
            seq![TextChunk { clean_length: 1, start: self.start, end: self.end }]
        } else if self.kind == CODE_SPAN {
            seq![TextChunk { clean_length: 6, start: self.start, end: self.end }]
        } else {
            self.chunks_below(self.children.len() as int)
        }
    }

    /// The chunks that the first `count` children of this node add.
    pub open spec fn chunks_below(self, count: int) -> Seq<TextChunk>
        decreases self, count,
    {
        if 0 < count <= self.children.len() {
            self.chunks_below(count - 1) + self.children[count - 1].chunks()
        } else {
            Seq::empty()
        }
    }

    /// The clean text that this node and the nodes below it add, read from a
    /// document of the bytes `bytes`.
    pub open spec fn clean_text(self, bytes: Seq<u8>) -> Seq<char>
        decreases self, self.children.len() + 1,
    {
        if is_opaque_kind(self.kind) {
            Seq::empty()
        } else if self.kind == TEXT {
            decode_utf8(bytes.subrange(self.start as int, self.end as int))
        } else if self.kind == SOFT_LINE_BREAK {
            seq![' ']
        } else if self.kind == CODE_SPAN {
            code_placeholder()
        } else {
            self.clean_text_below(bytes, self.children.len() as int)
        }
    }

    /// The clean text that the first `count` children of this node add.
    pub open spec fn clean_text_below(self, bytes: Seq<u8>, count: int) -> Seq<char>
        decreases self, count,
    {
        if 0 < count <= self.children.len() {
            self.clean_text_below(bytes, count - 1) + self.children[count - 1].clean_text(bytes)
        } else {
            Seq::empty()
        }
    }

    /// Every text node that is read at or below this node covers a range of
    /// whole characters of `bytes`.
    pub open spec fn fits(self, bytes: Seq<u8>) -> bool
        decreases self, self.children.len() + 1,
    {
        if is_opaque_kind(self.kind) {
            true
        } else if self.kind == TEXT {
            &&& self.start <= self.end <= bytes.len()
            &&& is_char_boundary(bytes, self.start as int)
            &&& is_char_boundary(bytes, self.end as int)
        } else if self.kind == SOFT_LINE_BREAK || self.kind == CODE_SPAN {
            true
        } else {
            self.fits_below(bytes, self.children.len() as int)
        }
    }

    /// Every text node that is read at or below the first `count` children of
    /// this node covers a range of whole characters of `bytes`.
    pub open spec fn fits_below(self, bytes: Seq<u8>, count: int) -> bool
        decreases self, count,
    {
        if 0 < count <= self.children.len() {
            self.fits_below(bytes, count - 1) && self.children[count - 1].fits(bytes)
        } else {
            true
        }
    }

    /// The node covers a range that is not inverted, its children lie inside
    /// that range from left to right without overlap, and the same holds of
    /// each of them.
    pub open spec fn ordered(self) -> bool
        decreases self, self.children.len() + 1,
    {
        self.start <= self.end && self.ordered_below(self.children.len() as int)
    }

    /// What `ordered` asks of the first `count` children.
    pub open spec fn ordered_below(self, count: int) -> bool
        decreases self, count,
    {
        if 0 < count <= self.children.len() {
            let child = self.children[count - 1];
            &&& self.ordered_below(count - 1)
            &&& child.ordered()
            &&& self.start <= child.start
            &&& child.end <= self.end
            &&& (count >= 2 ==> self.children[count - 2].end <= child.start)
        } else {
            true
        }
    }
}

/// The bytes of a text are those of its first part followed by those of the
/// rest.
pub proof fn lemma_encode_concat(a: Seq<char>, b: Seq<char>)
    ensures
        encode_utf8(a + b) == encode_utf8(a) + encode_utf8(b),
    decreases a.len(),
{
    if a.len() == 0 {
        assert(a + b =~= b);
        assert(encode_utf8(a) + encode_utf8(b) =~= encode_utf8(b));
    } else {
        lemma_encode_concat(a.drop_first(), b);
        assert((a + b).drop_first() =~= a.drop_first() + b);
        assert(encode_utf8(a + b) =~= encode_utf8(a) + encode_utf8(b));
    }
}

/// The clean lengths of two runs of chunks add up.
proof fn lemma_clean_total_concat(a: Seq<TextChunk>, b: Seq<TextChunk>)
    ensures
        clean_total(a + b) == clean_total(a) + clean_total(b),
    decreases b.len(),
{
    if b.len() == 0 {
        assert(a + b =~= a);
    } else {
        lemma_clean_total_concat(a, b.drop_last());
        assert((a + b).drop_last() =~= a + b.drop_last());
    }
}

/// The clean length of a single chunk is its own.
proof fn lemma_clean_total_single(chunks: Seq<TextChunk>)
    requires
        chunks.len() == 1,
    ensures
        clean_total(chunks) == chunks[0].clean_length,
{
    assert(chunks.drop_last() =~= Seq::<TextChunk>::empty());
    assert(clean_total(chunks.drop_last()) == 0);
}

/// The placeholder for a code span takes six bytes.
proof fn lemma_placeholder_length()
    ensures
        encode_utf8(code_placeholder()).len() == 6,
        encode_utf8(seq![' ']).len() == 1,
{
    assert(is_ascii_chars(code_placeholder()));
    is_ascii_chars_encode_utf8(code_placeholder());
    assert(is_ascii_chars(seq![' ']));
    is_ascii_chars_encode_utf8(seq![' ']);
}

fn is_region(kind: u16) -> (b: bool)
    ensures
        b == is_region_kind(kind),
{
    kind == PARAGRAPH || kind == HEADING_CONTENT || kind == TABLE_CELL
}

fn is_opaque(kind: u16) -> (b: bool)
    ensures
        b == is_opaque_kind(kind),
{
    kind == LINK_DESTINATION || kind == IMAGE_DESCRIPTION || kind == FENCED_CODE_BLOCK || kind
        == INDENTED_CODE_BLOCK || kind == HTML_OPEN_TAG || kind == HTML_SELF_CLOSING_TAG || kind
        == IMAGE
}

/// Whether `found` holds exactly the nodes `nodes`, in order.
pub open spec fn holds_nodes(found: Seq<&SyntaxNode>, nodes: Seq<SyntaxNode>) -> bool {
    &&& found.len() == nodes.len()
    &&& forall|i: int| 0 <= i < found.len() ==> *(#[trigger] found[i]) == nodes[i]
}

fn collect_regions<'a>(node: &'a SyntaxNode, found: &mut Vec<&'a SyntaxNode>, Ghost(
    before,
): Ghost<Seq<SyntaxNode>>)
    requires
        holds_nodes(old(found)@, before),
    ensures
        holds_nodes(final(found)@, before + node.regions_below(node.children.len() as int)),
    decreases node,
{
    let mut i: usize = 0;
    while i < node.children.len()
        invariant
            i <= node.children.len(),
            holds_nodes(found@, before + node.regions_below(i as int)),
        decreases node.children.len() - i,
    {
        let child = &node.children[i];
        let ghost so_far = before + node.regions_below(i as int);
        if is_region(child.kind) {
            found.push(child);
            assert(so_far + child.regions() =~= before + node.regions_below(i + 1));
            assert(so_far + child.regions() =~= so_far.push(*child));
        } else if child.kind == FRONTMATTER_HEADING {
            assert(child.regions() =~= Seq::empty());
            assert(so_far + child.regions() =~= before + node.regions_below(i + 1));
        } else {
            collect_regions(child, found, Ghost(so_far));
            assert(so_far + child.regions() =~= before + node.regions_below(i + 1));
        }
        i = i + 1;
    }
}

/// The prose regions of a document, in document order: each node below the
/// root that is a paragraph, the content of a heading or a table cell, and
/// lies neither inside another such node nor inside a frontmatter heading.
pub fn find_text_nodes<'a>(tree: &'a SyntaxNode) -> (nodes: Vec<&'a SyntaxNode>)
    ensures
        holds_nodes(nodes@, tree.regions_below(tree.children.len() as int)),
{
    let mut nodes: Vec<&'a SyntaxNode> = Vec::new();
    collect_regions(tree, &mut nodes, Ghost(Seq::empty()));
    assert(Seq::<SyntaxNode>::empty() + tree.regions_below(tree.children.len() as int)
        =~= tree.regions_below(tree.children.len() as int));
    nodes
}

fn check_fits_below(buffer: &TextBuffer, node: &SyntaxNode) -> (b: bool)
    ensures
        b == node.fits_below(buffer@, node.children.len() as int),
    decreases node,
{
    let mut i: usize = 0;
    while i < node.children.len()
        invariant
            i <= node.children.len(),
            node.fits_below(buffer@, i as int),
        decreases node.children.len() - i,
    {
        let child = &node.children[i];
        let fine = if is_opaque(child.kind) {
            true
        } else if child.kind == TEXT {
            child.start <= child.end && buffer.is_boundary(child.start) && buffer.is_boundary(
                child.end,
            )
        } else if child.kind == SOFT_LINE_BREAK || child.kind == CODE_SPAN {
            true
        } else {
            check_fits_below(buffer, child)
        };
        assert(fine == child.fits(buffer@));
        if !fine {
            proof {
                if node.fits_below(buffer@, node.children.len() as int) {
                    lemma_fits_below_prefix(*node, buffer@, i + 1, node.children.len() as int);
                }
            }
            return false;
        }
        i = i + 1;
    }
    true
}

/// What fits for the first `count` children fits for fewer of them.
proof fn lemma_fits_below_prefix(node: SyntaxNode, bytes: Seq<u8>, fewer: int, count: int)
    requires
        0 <= fewer <= count <= node.children.len(),
        node.fits_below(bytes, count),
    ensures
        node.fits_below(bytes, fewer),
    decreases count - fewer,
{
    if fewer < count {
        lemma_fits_below_prefix(node, bytes, fewer, count - 1);
    }
}

/// What is ordered for the first `count` children is ordered for fewer of
/// them.
proof fn lemma_ordered_below_prefix(node: SyntaxNode, fewer: int, count: int)
    requires
        0 <= fewer <= count <= node.children.len(),
        node.ordered_below(count),
    ensures
        node.ordered_below(fewer),
    decreases count - fewer,
{
    if fewer < count {
        lemma_ordered_below_prefix(node, fewer, count - 1);
    }
}

fn check_ordered_below(node: &SyntaxNode) -> (b: bool)
    ensures
        b == node.ordered_below(node.children.len() as int),
    decreases node,
{
    let mut i: usize = 0;
    while i < node.children.len()
        invariant
            i <= node.children.len(),
            node.ordered_below(i as int),
        decreases node.children.len() - i,
    {
        let child = &node.children[i];
        let fine = child.start <= child.end && check_ordered_below(child) && node.start
            <= child.start && child.end <= node.end && (i == 0 || node.children[i - 1].end
            <= child.start);
        proof {
            reveal_with_fuel(SyntaxNode::ordered, 2);
            reveal_with_fuel(SyntaxNode::ordered_below, 2);
            assert(fine == node.ordered_below(i + 1));
        }
        if !fine {
            proof {
                if node.ordered_below(node.children.len() as int) {
                    lemma_ordered_below_prefix(*node, i + 1, node.children.len() as int);
                }
            }
            return false;
        }
        i = i + 1;
    }
    true
}

/// Whether the tree `tree` is ordered: each node covers a range that is not
/// inverted, and its children lie inside that range from left to right
/// without overlap. The chunks of an ordered tree ascend.
pub fn tree_is_ordered(tree: &SyntaxNode) -> (b: bool)
    ensures
        b == tree.ordered(),
{
    tree.start <= tree.end && check_ordered_below(tree)
}

/// Whether the text nodes of the region `node` cover whole characters of the
/// buffer, as they do where the tree was parsed from the buffer's text.
pub fn region_fits(buffer: &TextBuffer, node: &SyntaxNode) -> (b: bool)
    ensures
        b == node.fits_below(buffer@, node.children.len() as int),
{
    check_fits_below(buffer, node)
}

fn collect_text(
    buffer: &TextBuffer,
    node: &SyntaxNode,
    text: &mut String,
    chunks: &mut Vec<TextChunk>,
)
    requires
        node.fits_below(buffer@, node.children.len() as int),
        clean_total(old(chunks)@) == encode_utf8(old(text)@).len(),
    ensures
        final(text)@ == old(text)@ + node.clean_text_below(
            buffer@,
            node.children.len() as int,
        ),
        final(chunks)@ == old(chunks)@ + node.chunks_below(node.children.len() as int),
        clean_total(final(chunks)@) == encode_utf8(final(text)@).len(),
    decreases node,
{
    let ghost bytes = buffer@;
    let ghost text0 = text@;
    let ghost chunks0 = chunks@;
    let mut i: usize = 0;
    while i < node.children.len()
        invariant
            i <= node.children.len(),
            bytes == buffer@,
            node.fits_below(bytes, node.children.len() as int),
            text@ == text0 + node.clean_text_below(bytes, i as int),
            chunks@ == chunks0 + node.chunks_below(i as int),
            clean_total(chunks@) == encode_utf8(text@).len(),
        decreases node.children.len() - i,
    {
        let child = &node.children[i];
        let ghost text1 = text@;
        let ghost chunks1 = chunks@;
        proof {
            lemma_fits_below_prefix(*node, bytes, i + 1, node.children.len() as int);
            assert(node.fits_below(bytes, i + 1));
            assert(child.fits(bytes));
            lemma_placeholder_length();
        }
        if is_opaque(child.kind) {
        } else if child.kind == TEXT {
            let piece = buffer.slice(child.start, child.end);
            let piece = piece.unwrap();
            proof {
                encode_utf8_decode_utf8(piece@);
                lemma_clean_total_single(child.chunks());
            }
            text.append(piece.as_str());
            chunks.push(
                TextChunk {
                    clean_length: child.end - child.start,
                    start: child.start,
                    end: child.end,
                },
            );
        } else if child.kind == SOFT_LINE_BREAK {
            proof {
                reveal_strlit(" ");
                assert(" "@ =~= seq![' ']);
                lemma_clean_total_single(child.chunks());
            }
            text.append(" ");
            chunks.push(TextChunk { clean_length: 1, start: child.start, end: child.end });
        } else if child.kind == CODE_SPAN {
            proof {
                reveal_strlit("[code]");
                assert("[code]"@ =~= code_placeholder());
                lemma_clean_total_single(child.chunks());
            }
            text.append("[code]");
            chunks.push(TextChunk { clean_length: 6, start: child.start, end: child.end });
        } else {
            collect_text(buffer, child, text, chunks);
        }
        proof {
            assert(text@ == text1 + child.clean_text(bytes));
            assert(chunks@ =~= chunks1 + child.chunks());
            lemma_encode_concat(text1, child.clean_text(bytes));
            lemma_clean_total_concat(chunks1, child.chunks());
            assert(text@ =~= text0 + node.clean_text_below(bytes, i + 1));
            assert(chunks@ =~= chunks0 + node.chunks_below(i + 1));
        }
        i = i + 1;
    }
}

/// The clean text of the prose region `node`, read from `buffer`, with the
/// chunks that map it back to the document. The text nodes of the region have
/// to cover whole characters of the buffer, which [`region_fits`] tests.
pub fn get_node_text(buffer: &TextBuffer, node: &SyntaxNode) -> (range: TextRange)
    requires
        node.fits_below(buffer@, node.children.len() as int),
    ensures
        range.clean_text@ == node.clean_text_below(buffer@, node.children.len() as int),
        range.chunks@ == node.chunks_below(node.children.len() as int),
        range.well_formed(),
        node.ordered() ==> ascending(range.chunks@),
{
    let mut text = String::new();
    let mut chunks: Vec<TextChunk> = Vec::new();
    collect_text(buffer, node, &mut text, &mut chunks);
    proof {
        let count = node.children.len() as int;
        assert(Seq::<char>::empty() + node.clean_text_below(buffer@, count)
            =~= node.clean_text_below(buffer@, count));
        assert(Seq::<TextChunk>::empty() + node.chunks_below(count) =~= node.chunks_below(count));
        if node.ordered() {
            lemma_chunks_below_ascending(*node, count);
        }
    }
    TextRange { clean_text: text, chunks }
}

/// Every chunk of `chunks` lies in `[low, high]`.
pub open spec fn within(chunks: Seq<TextChunk>, low: int, high: int) -> bool {
    forall|i: int|
        0 <= i < chunks.len() ==> low <= (#[trigger] chunks[i]).start && chunks[i].end <= high
}

/// The chunks of an ordered node ascend and lie inside the node.
pub proof fn lemma_chunks_ascending(node: SyntaxNode)
    requires
        node.ordered(),
    ensures
        ascending(node.chunks()),
        within(node.chunks(), node.start as int, node.end as int),
    decreases node, node.children.len() + 1,
{
    if !is_opaque_kind(node.kind) && node.kind != TEXT && node.kind != SOFT_LINE_BREAK && node.kind
        != CODE_SPAN {
        lemma_chunks_below_ascending(node, node.children.len() as int);
    }
}

/// The chunks of the first `count` children of an ordered node ascend, and
/// lie between the start of the node and the end of the last of those
/// children.
pub proof fn lemma_chunks_below_ascending(node: SyntaxNode, count: int)
    requires
        node.start <= node.end,
        node.ordered_below(count),
        0 <= count <= node.children.len(),
    ensures
        ascending(node.chunks_below(count)),
        within(node.chunks_below(count), node.start as int, node.end as int),
        count > 0 ==> within(
            node.chunks_below(count),
            node.start as int,
            node.children[count - 1].end as int,
        ),
    decreases node, count,
{
    if count > 0 {
        let child = node.children[count - 1];
        lemma_chunks_below_ascending(node, count - 1);
        lemma_chunks_ascending(child);
        let before = node.chunks_below(count - 1);
        let all = node.chunks_below(count);
        assert(all == before + child.chunks());
        reveal_with_fuel(SyntaxNode::ordered, 2);
        reveal_with_fuel(SyntaxNode::ordered_below, 2);
        assert(child.ordered());
        assert(child.start <= child.end);
        assert(node.start <= child.start && child.end <= node.end);
        assert(count >= 2 ==> node.children[count - 2].end <= child.start);
        assert(count >= 2 ==> within(
            before,
            node.start as int,
            node.children[count - 2].end as int,
        ));
        assert(within(child.chunks(), child.start as int, child.end as int));
        assert forall|i: int| 0 <= i < all.len() implies (#[trigger] all[i]).start <= all[i].end
            && node.start <= all[i].start && all[i].end <= child.end by {
            if i < before.len() {
                assert(all[i] == before[i]);
            } else {
                assert(all[i] == child.chunks()[i - before.len()]);
            }
        }
        assert forall|i: int, j: int| 0 <= i < j < all.len() implies (#[trigger] all[i]).end <= (
        #[trigger] all[j]).start by {
            if j < before.len() {
                assert(all[i] == before[i]);
                assert(all[j] == before[j]);
            } else if i < before.len() {
                assert(all[i] == before[i]);
                assert(all[j] == child.chunks()[j - before.len()]);
            } else {
                assert(all[i] == child.chunks()[i - before.len()]);
                assert(all[j] == child.chunks()[j - before.len()]);
            }
        }
    }
}

/// A `TextRange` as a plain value.
pub struct TextRangeView {
    pub clean_text: Seq<char>,
    pub chunks: Seq<TextChunk>,
}

impl View for TextRange {
    type V = TextRangeView;

    open spec fn view(&self) -> TextRangeView {
        TextRangeView { clean_text: self.clean_text@, chunks: self.chunks@ }
    }
}

/// The text ranges of a list as plain values.
pub open spec fn text_range_views(list: Seq<TextRange>) -> Seq<TextRangeView> {
    Seq::new(list.len(), |i: int| list[i]@)
}

/// The clean text and the chunks of the region `node`.
pub open spec fn range_of_region(bytes: Seq<u8>, node: SyntaxNode) -> TextRangeView {
    TextRangeView {
        clean_text: node.clean_text_below(bytes, node.children.len() as int),
        chunks: node.chunks_below(node.children.len() as int),
    }
}

/// The text ranges of the regions `regions`, in order. A region whose text
/// nodes do not cover whole characters of `bytes` has none.
pub open spec fn extracted(bytes: Seq<u8>, regions: Seq<SyntaxNode>) -> Seq<TextRangeView>
    decreases regions.len(),
{
    if regions.len() == 0 {
        Seq::empty()
    } else if regions.last().fits_below(bytes, regions.last().children.len() as int) {
        extracted(bytes, regions.drop_last()).push(range_of_region(bytes, regions.last()))
    } else {
        extracted(bytes, regions.drop_last())
    }
}

/// The clean text of each prose region of the tree `tree`, read from
/// `buffer`, in document order. A region whose text nodes do not cover whole
/// characters of the buffer, as can only be where the tree is not the tree
/// of the buffer's text, is left out.
pub fn extract(buffer: &TextBuffer, tree: &SyntaxNode) -> (ranges: Vec<TextRange>)
    ensures
        text_range_views(ranges@) == extracted(
            buffer@,
            tree.regions_below(tree.children.len() as int),
        ),
        forall|i: int| 0 <= i < ranges.len() ==> (#[trigger] ranges[i]).well_formed(),
        tree.ordered() ==> forall|i: int|
            0 <= i < ranges.len() ==> ascending((#[trigger] ranges[i]).chunks@),
{
    let regions = find_text_nodes(tree);
    let ghost nodes = tree.regions_below(tree.children.len() as int);
    let mut ranges: Vec<TextRange> = Vec::new();
    let mut i: usize = 0;
    proof {
        assert(nodes.take(0) =~= Seq::<SyntaxNode>::empty());
        if tree.ordered() {
            lemma_regions_ordered(*tree, tree.children.len() as int);
        }
    }
    while i < regions.len()
        invariant
            i <= regions.len(),
            holds_nodes(regions@, nodes),
            text_range_views(ranges@) == extracted(buffer@, nodes.take(i as int)),
            forall|k: int| 0 <= k < ranges.len() ==> (#[trigger] ranges[k]).well_formed(),
            tree.ordered() ==> forall|k: int| 0 <= k < nodes.len() ==> (#[trigger] nodes[k]).ordered(),
            tree.ordered() ==> forall|k: int|
                0 <= k < ranges.len() ==> ascending((#[trigger] ranges[k]).chunks@),
        decreases regions.len() - i,
    {
        let region = regions[i];
        let ghost before = text_range_views(ranges@);
        proof {
            assert(nodes.take(i + 1).drop_last() =~= nodes.take(i as int));
            assert(nodes.take(i + 1).last() == *region);
            assert(*region == nodes[i as int]);
        }
        if region_fits(buffer, region) {
            let range = get_node_text(buffer, region);
            ranges.push(range);
            assert(text_range_views(ranges@) =~= before.push(range_of_region(buffer@, *region)));
        }
        i = i + 1;
    }
    proof {
        assert(nodes.take(regions.len() as int) =~= nodes);
    }
    ranges
}

/// The regions of an ordered tree are ordered.
pub proof fn lemma_regions_ordered(node: SyntaxNode, count: int)
    requires
        node.ordered_below(count),
        0 <= count <= node.children.len(),
    ensures
        forall|k: int|
            0 <= k < node.regions_below(count).len() ==> (#[trigger] node.regions_below(
                count,
            )[k]).ordered(),
    decreases node, count,
{
    if count > 0 {
        let child = node.children[count - 1];
        lemma_regions_ordered(node, count - 1);
        reveal_with_fuel(SyntaxNode::ordered, 2);
        reveal_with_fuel(SyntaxNode::ordered_below, 2);
        if !is_region_kind(child.kind) && child.kind != FRONTMATTER_HEADING {
            lemma_regions_ordered(child, child.children.len() as int);
        }
        let before = node.regions_below(count - 1);
        let all = node.regions_below(count);
        assert(all == before + child.regions());
        assert(child.ordered());
        assert forall|k: int| 0 <= k < all.len() implies (#[trigger] all[k]).ordered() by {
            if k < before.len() {
                assert(all[k] == before[k]);
            } else {
                let inner = k - before.len();
                assert(all[k] == child.regions()[inner]);
                if is_region_kind(child.kind) {
                    assert(child.regions()[inner] == child);
                } else {
                    assert(child.regions() == child.regions_below(child.children.len() as int));
                }
            }
        }
    }
}

/// Extraction is repeatable: whatever is extracted twice from the same text
/// and the same tree is the same, text for text and chunk for chunk.
pub proof fn lemma_extraction_is_repeatable(
    bytes: Seq<u8>,
    tree: SyntaxNode,
    first: Seq<TextRange>,
    second: Seq<TextRange>,
)
    requires
        text_range_views(first) == extracted(
            bytes,
            tree.regions_below(tree.children.len() as int),
        ),
        text_range_views(second) == extracted(
            bytes,
            tree.regions_below(tree.children.len() as int),
        ),
    ensures
        first.len() == second.len(),
        forall|i: int|
            0 <= i < first.len() ==> (#[trigger] first[i]).clean_text@ == second[i].clean_text@
                && first[i].chunks@ == second[i].chunks@,
{
    assert(text_range_views(first).len() == first.len());
    assert(text_range_views(second).len() == second.len());
    assert forall|i: int| 0 <= i < first.len() implies (#[trigger] first[i]).clean_text@
        == second[i].clean_text@ && first[i].chunks@ == second[i].chunks@ by {
        assert(text_range_views(first)[i] == first[i]@);
        assert(text_range_views(second)[i] == second[i]@);
    }
}

} // verus!
