use vstd::prelude::*;
use crate::geometry::{AU_PER_PX, Dimensions, MAX_LEN};
use crate::inline::{InlineItem, TextRun};
use crate::replaced::{opt_len_ok, replaced_size_spec, resolve_replaced_size};

verus! {

/// What an image offers to layout: its intrinsic size in pixels (zero where
/// it failed to decode) and the width and height given for it, if any.
#[derive(Clone, Copy, Debug, PartialEq, Eq, Structural)]
pub struct ImageData {
    pub intrinsic_width_px: i64,
    pub intrinsic_height_px: i64,
    pub specified_width: Option<i64>,
    pub specified_height: Option<i64>,
}

#[derive(Debug)]
pub enum BoxType {
    TextNode(TextRun),
    InlineNode,
    /// An inline-block whose content has been laid out; `width` is its
    /// explicit width, if its style gives one.
    InlineBlockNode(Option<i64>),
    ImageNode(ImageData),
    BlockNode,
}

/// One box of the layout tree, with its box-model edges already resolved.
#[derive(Debug)]
pub struct LayoutBox {
    pub box_type: BoxType,
    pub dimensions: Dimensions,
    pub children: Vec<LayoutBox>,
}

#[derive(Clone, Copy, Debug, PartialEq, Eq, Structural)]
pub enum LayoutError {
    /// An inline-block without an explicit width: shrink-to-fit sizing is
    /// not supported.
    UnsupportedShrinkToFit,
}

pub open spec fn image_ok(img: ImageData) -> bool {
    &&& opt_len_ok(img.specified_width)
    &&& opt_len_ok(img.specified_height)
    &&& 0 <= img.intrinsic_width_px <= MAX_LEN / AU_PER_PX
    &&& 0 <= img.intrinsic_height_px <= MAX_LEN / AU_PER_PX
}

/// The first text box of a tree, in document order.
pub open spec fn first_text(b: LayoutBox) -> Option<LayoutBox>
    decreases b,
{
    if b.box_type is TextNode {
        Some(b)
    } else {
        first_text_in(b, b.children@.len() as int)
    }
}

/// The first text box among the first `n` children of `b`.
pub open spec fn first_text_in(b: LayoutBox, n: int) -> Option<LayoutBox>
    decreases b, n,
{
    if n <= 0 || n > b.children@.len() {
        None
    } else {
        match first_text_in(b, n - 1) {
            Some(t) => Some(t),
            None => first_text(b.children@[n - 1]),
        }
    }
}

/// Once found among the first children, the first text box stays found.
pub proof fn lemma_first_text_in_stays(b: LayoutBox, m: int, n: int)
    requires
        0 < m <= n <= b.children@.len(),
        first_text_in(b, m) is Some,
    ensures
        first_text_in(b, n) == first_text_in(b, m),
    decreases n - m,
{
    if n > m {
        lemma_first_text_in_stays(b, m, n - 1);
    }
}

impl LayoutBox {
    /// The first text box of this tree, in document order.
    pub fn get_first_text_node(&self) -> (r: Option<&LayoutBox>)
        ensures
            r is None <==> first_text(*self) is None,
            r matches Some(n) ==> first_text(*self) == Some(*n),
        decreases self,
    {
        if let BoxType::TextNode(_) = &self.box_type {
            return Some(self);
        }
        let mut i: usize = 0;
        while i < self.children.len()
            invariant
                i <= self.children@.len(),
                !(self.box_type is TextNode),
                first_text_in(*self, i as int) is None,
            decreases self.children@.len() - i,
        {
            proof {
                assert(decreases_to!(*self => self.children@[i as int]));
            }
            if let Some(node) = self.children[i].get_first_text_node() {
                proof {
                    assert(first_text(*self) == first_text_in(*self, self.children@.len() as int));
                    assert(first_text_in(*self, i + 1) == Some(*node));
                    lemma_first_text_in_stays(*self, i + 1, self.children@.len() as int);
                }
                return Some(node);
            }
            i = i + 1;
        }
        None
    }
}

pub open spec fn first_text_ascent(b: LayoutBox) -> int {
    match first_text(b) {
        Some(t) => match t.box_type {
            BoxType::TextNode(run) => run.font.ascent as int,
            _ => 0,
        },
        None => b.dimensions.content.height as int,
    }
}

/// `d` with content `width` by `height`.
pub open spec fn sized(d: Dimensions, width: int, height: int) -> Dimensions {
    Dimensions {
        content: crate::geometry::Rect { width: width as i64, height: height as i64, ..d.content },
        ..d
    }
}

impl LayoutBox {
    /// The ascent that puts this box on a baseline: that of its first text,
    /// or else its content height.
    pub fn content_inline_ascent(&self) -> (r: i64)
        ensures
            r == first_text_ascent(*self),
    {
        let height = self.dimensions.content.height;
        match self.get_first_text_node() {
            Some(node) => match &node.box_type {
                BoxType::TextNode(run) => run.font.ascent,
                _ => 0,
            },
            None => height,
        }
    }

    /// Sizes replaced content (an image) from its given and intrinsic
    /// sizes; other boxes are left as they are.
    pub fn layout_inline(&mut self)
        requires
            old(self).box_type matches BoxType::ImageNode(img) ==> image_ok(img),
        ensures
            final(self).box_type == old(self).box_type,
            final(self).children == old(self).children,
            match old(self).box_type {
                BoxType::ImageNode(img) => {
                    let size = replaced_size_spec(
                        img.specified_width,
                        img.specified_height,
                        img.intrinsic_width_px,
                        img.intrinsic_height_px,
                    );
                    final(self).dimensions == sized(old(self).dimensions, size.0, size.1)
                },
                _ => final(self).dimensions == old(self).dimensions,
            },
    {
        if let BoxType::ImageNode(img) = &self.box_type {
            let (w, h) = resolve_replaced_size(
                img.specified_width,
                img.specified_height,
                img.intrinsic_width_px,
                img.intrinsic_height_px,
            );
            self.dimensions.content.width = w;
            self.dimensions.content.height = h;
        }
    }

    /// Sets the width of an inline-block to its explicit width. Without one
    /// its width would be shrink-to-fit, which is not supported.
    pub fn calculate_inline_block_width(&mut self) -> (r: Result<(), LayoutError>)
        ensures
            final(self).box_type == old(self).box_type,
            final(self).children == old(self).children,
            match old(self).box_type {
                BoxType::InlineBlockNode(Some(w)) => r is Ok && final(self).dimensions == sized(
                    old(self).dimensions,
                    w as int,
                    old(self).dimensions.content.height as int,
                ),
                BoxType::InlineBlockNode(None) => r == Err::<(), LayoutError>(
                    LayoutError::UnsupportedShrinkToFit,
                ) && final(self).dimensions == old(self).dimensions,
                _ => r is Ok && final(self).dimensions == old(self).dimensions,
            },
    {
        match &self.box_type {
            BoxType::InlineBlockNode(Some(w)) => {
                self.dimensions.content.width = *w;
                Ok(())
            },
            BoxType::InlineBlockNode(None) => Err(LayoutError::UnsupportedShrinkToFit),
            _ => Ok(()),
        }
    }
}

/// Every image of the tree has sizes in range.
pub open spec fn tree_ok(b: LayoutBox) -> bool
    decreases b,
{
    &&& b.box_type matches BoxType::ImageNode(img) ==> image_ok(img)
    &&& children_ok(b, b.children@.len() as int)
}

pub open spec fn children_ok(b: LayoutBox, n: int) -> bool
    decreases b, n,
{
    if n <= 0 || n > b.children@.len() {
        true
    } else {
        children_ok(b, n - 1) && tree_ok(b.children@[n - 1])
    }
}

/// The inline items of a tree, in document order: an inline box opens,
/// holds the items of its children and closes; an inline-block with an
/// explicit width and an image are atomic; what inline layout does not
/// handle is marked unsupported.
pub open spec fn box_items(b: LayoutBox) -> Seq<InlineItem>
    decreases b,
{
    match b.box_type {
        BoxType::TextNode(t) => seq![InlineItem::Text(t)],
        BoxType::InlineNode => seq![InlineItem::Open(b.dimensions)] + children_items(
            b,
            b.children@.len() as int,
        ) + seq![InlineItem::Close],
        BoxType::InlineBlockNode(Some(w)) => seq![
            InlineItem::Atomic(
                sized(b.dimensions, w as int, b.dimensions.content.height as int),
                first_text_ascent(b) as i64,
            ),
        ],
        BoxType::ImageNode(img) => {
            let size = replaced_size_spec(
                img.specified_width,
                img.specified_height,
                img.intrinsic_width_px,
                img.intrinsic_height_px,
            );
            seq![InlineItem::Atomic(sized(b.dimensions, size.0, size.1), size.1 as i64)]
        },
        _ => seq![InlineItem::Unsupported],
    }
}

/// The items of the first `n` children of `b`.
pub open spec fn children_items(b: LayoutBox, n: int) -> Seq<InlineItem>
    decreases b, n,
{
    if n <= 0 || n > b.children@.len() {
        Seq::empty()
    } else {
        children_items(b, n - 1) + box_items(b.children@[n - 1])
    }
}

/// The items of boxes `0..n`.
pub open spec fn boxes_items(boxes: Seq<LayoutBox>, n: int) -> Seq<InlineItem>
    decreases n,
{
    if n <= 0 || n > boxes.len() {
        Seq::empty()
    } else {
        boxes_items(boxes, n - 1) + box_items(boxes[n - 1])
    }
}

/// Appends the inline items of `b` to `out`.
fn push_box_items(b: LayoutBox, out: &mut Vec<InlineItem>)
    requires
        tree_ok(b),
    ensures
        final(out)@ == old(out)@ + box_items(b),
    decreases b,
{
    let ghost gb = b;
    match &b.box_type {
        BoxType::InlineBlockNode(Some(w)) => {
            let ascent = b.content_inline_ascent();
            let mut d = b.dimensions;
            d.content.width = *w;
            out.push(InlineItem::Atomic(d, ascent));
            proof {
                assert(out@ =~= old(out)@ + box_items(gb));
            }
            return;
        },
        BoxType::ImageNode(_) => {
            let mut b = b;
            b.layout_inline();
            let h = b.dimensions.content.height;
            out.push(InlineItem::Atomic(b.dimensions, h));
            proof {
                assert(out@ =~= old(out)@ + box_items(gb));
            }
            return;
        },
        _ => {},
    }
    let LayoutBox { box_type, dimensions, children } = b;
    match box_type {
        BoxType::TextNode(t) => {
            out.push(InlineItem::Text(t));
            proof {
                assert(out@ =~= old(out)@ + box_items(gb));
            }
        },
        BoxType::InlineNode => {
            out.push(InlineItem::Open(dimensions));
            let ghost base = out@;
            let mut cs = children;
            let ghost n = gb.children@.len() as int;
            let ghost mut k: int = 0;
            while cs.len() > 0
                invariant
                    0 <= k <= n,
                    n == gb.children@.len(),
                    cs@ == gb.children@.subrange(k, n),
                    out@ == base + children_items(gb, k),
                    children_ok(gb, n),
                    gb.box_type is InlineNode,
                    gb == b,
                decreases cs@.len(),
            {
                let c = cs.remove(0);
                proof {
                    assert(c == gb.children@[k]);
                    assert(decreases_to!(gb => gb.children@[k]));
                    assert(decreases_to!(gb => c));
                    lemma_children_ok(gb, k + 1, n);
                }
                push_box_items(c, out);
                proof {
                    assert(out@ =~= base + children_items(gb, k + 1));
                    k = k + 1;
                    assert(cs@ =~= gb.children@.subrange(k, n));
                }
            }
            out.push(InlineItem::Close);
            proof {
                assert(out@ =~= old(out)@ + box_items(gb));
            }
        },
        _ => {
            out.push(InlineItem::Unsupported);
            proof {
                assert(out@ =~= old(out)@ + box_items(gb));
            }
        },
    }
}

proof fn lemma_children_ok(b: LayoutBox, m: int, n: int)
    requires
        0 < m <= n <= b.children@.len(),
        children_ok(b, n),
    ensures
        children_ok(b, m),
        tree_ok(b.children@[m - 1]),
    decreases n - m,
{
    if n > m {
        lemma_children_ok(b, m, n - 1);
    }
}

/// The inline items of `boxes`, in document order.
pub fn boxes_to_items(boxes: Vec<LayoutBox>) -> (r: Vec<InlineItem>)
    requires
        forall|i: int| 0 <= i < boxes@.len() ==> tree_ok(#[trigger] boxes@[i]),
    ensures
        r@ == boxes_items(boxes@, boxes@.len() as int),
{
    let ghost all = boxes@;
    let mut out: Vec<InlineItem> = Vec::new();
    let mut bs = boxes;
    let ghost n = all.len() as int;
    let ghost mut k: int = 0;
    while bs.len() > 0
        invariant
            0 <= k <= n,
            n == all.len(),
            bs@ == all.subrange(k, n),
            out@ == boxes_items(all, k),
            forall|i: int| 0 <= i < all.len() ==> tree_ok(#[trigger] all[i]),
        decreases bs@.len(),
    {
        let b = bs.remove(0);
        proof {
            assert(b == all[k]);
        }
        push_box_items(b, &mut out);
        proof {
            assert(out@ =~= boxes_items(all, k + 1));
            k = k + 1;
            assert(bs@ =~= all.subrange(k, n));
        }
    }
    out
}

} // verus!
