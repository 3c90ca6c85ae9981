use vstd::prelude::*;
use crate::geometry::{len_ok, Dimensions, EdgeSizes, Rect, MAX_LEN};
use crate::floats::{zone_at, FloatBand, Floats, Zone};
use crate::layout_box::{boxes_items, boxes_to_items, tree_ok, LayoutBox};
use crate::text::{adv_sum, advances_ok, max_fit, measure, lemma_adv_sum_within, MAX_TOTAL};

verus! {

/// A bound on the number of characters and atomic boxes in one inline
/// formatting context.
pub const MAX_UNITS: i64 = 268435456;

/// A bound on the height of one line.
pub const MAX_LINE_HEIGHT: i64 = 17179869184;

/// Vertical font metrics of a text run, and its used line height.
#[derive(Clone, Copy, Debug, PartialEq, Eq, Structural)]
pub struct FontMetrics {
    pub ascent: i64,
    pub descent: i64,
    pub line_height: i64,
}

/// A run of text: the advance of each character, and its font's metrics.
#[derive(Debug)]
pub struct TextRun {
    pub advances: Vec<i64>,
    pub font: FontMetrics,
}

/// One unit of inline content, in document order. An inline box is the
/// content between its `Open` (which carries its box-model edges) and the
/// matching `Close`.
#[derive(Debug)]
pub enum InlineItem {
    Text(TextRun),
    Open(Dimensions),
    Close,
    /// An inline-block or replaced box, laid out beforehand, with the ascent
    /// that aligns it on the baseline.
    Atomic(Dimensions, i64),
    /// Content that inline layout does not handle: it is skipped.
    Unsupported,
}

#[derive(Clone, Copy, Debug, PartialEq, Eq, Structural)]
pub enum FragmentSource {
    /// Characters `start..end` of the text run at `item`.
    Text { item: usize, start: usize, end: usize },
    /// The atomic box at `item`.
    Atomic { item: usize },
}

/// A positioned piece of content on one line. Its horizontal padding, border
/// and margin are those that the inline boxes around it keep on this piece.
#[derive(Clone, Copy, Debug, PartialEq, Eq, Structural)]
pub struct Fragment {
    pub source: FragmentSource,
    pub dims: Dimensions,
    pub ascent: i64,
}

#[derive(Clone, Copy, Debug, PartialEq, Eq, Structural)]
pub struct LineMetrics {
    pub above_baseline: i64,
    pub under_baseline: i64,
}

/// One line: fragments `start..end`, its metrics, its width and the band it
/// was laid in.
#[derive(Clone, Copy, Debug, PartialEq, Eq, Structural)]
pub struct Line {
    pub start: usize,
    pub end: usize,
    pub metrics: LineMetrics,
    pub width: i64,
    pub zone: Zone,
}

/// An inline box whose content is being laid out: its edges, and the index
/// of the first fragment produced inside it.
#[derive(Clone, Copy, Debug, PartialEq, Eq, Structural)]
pub struct Frame {
    pub dims: Dimensions,
    pub first: usize,
}

pub open spec fn metric_ok(v: i64) -> bool {
    0 <= v <= 8 * MAX_LEN
}

impl LineMetrics {
    pub fn new(above_baseline: i64, under_baseline: i64) -> (r: LineMetrics)
        ensures
            r.above_baseline == above_baseline,
            r.under_baseline == under_baseline,
    {
        LineMetrics { above_baseline, under_baseline }
    }

    pub fn reset(&mut self)
        ensures
            final(self).above_baseline == 0,
            final(self).under_baseline == 0,
    {
        self.above_baseline = 0;
        self.under_baseline = 0;
    }

    pub open spec fn wf(self) -> bool {
        metric_ok(self.above_baseline) && metric_ok(self.under_baseline)
    }

    pub open spec fn height_spec(self) -> int {
        self.above_baseline + self.under_baseline
    }

    pub fn calculate_line_height(&self) -> (r: i64)
        requires
            self.wf(),
        ensures
            r == self.height_spec(),
            0 <= r <= MAX_LINE_HEIGHT,
    {
        self.above_baseline + self.under_baseline
    }
}

pub open spec fn font_ok(f: FontMetrics) -> bool {
    len_ok(f.ascent) && len_ok(f.descent) && len_ok(f.line_height)
}

pub open spec fn item_ok(it: InlineItem) -> bool {
    match it {
        InlineItem::Text(t) => advances_ok(t.advances@) && font_ok(t.font),
        InlineItem::Open(d) => d.wf(),
        InlineItem::Atomic(d, a) => d.wf() && len_ok(a),
        _ => true,
    }
}

/// The horizontal room an item takes in all: a run's width, an inline box's
/// two edges, an atomic box's margin box.
pub open spec fn item_extent(it: InlineItem) -> int {
    match it {
        InlineItem::Text(t) => adv_sum(t.advances@, 0, t.advances@.len() as int),
        InlineItem::Open(d) => d.left_offset_spec() + d.right_offset_spec(),
        InlineItem::Atomic(d, a) => d.margin_box_width_spec(),
        _ => 0,
    }
}

/// Characters and atomic boxes: each fragment takes at least one.
pub open spec fn item_units(it: InlineItem) -> int {
    match it {
        InlineItem::Text(t) => t.advances@.len() as int,
        InlineItem::Atomic(d, a) => 1,
        _ => 0,
    }
}

pub open spec fn extent_from(items: Seq<InlineItem>, i: int) -> int
    decreases items.len() - i,
{
    if i >= items.len() || i < 0 {
        0
    } else {
        item_extent(items[i]) + extent_from(items, i + 1)
    }
}

pub open spec fn units_from(items: Seq<InlineItem>, i: int) -> int
    decreases items.len() - i,
{
    if i >= items.len() || i < 0 {
        0
    } else {
        item_units(items[i]) + units_from(items, i + 1)
    }
}

/// Items that inline layout can take: each well formed, and the content small
/// enough that no sum of lengths or count of lines overflows.
pub open spec fn items_ok(items: Seq<InlineItem>) -> bool {
    &&& forall|i: int| 0 <= i < items.len() ==> item_ok(#[trigger] items[i])
    &&& extent_from(items, 0) <= MAX_TOTAL
    &&& units_from(items, 0) <= MAX_UNITS
    &&& items.len() <= MAX_UNITS
}

pub open spec fn frag_width(f: Fragment) -> int {
    f.dims.margin_box_width_spec()
}

/// The summed margin-box width of fragments `lo..hi`.
pub open spec fn frag_sum(s: Seq<Fragment>, lo: int, hi: int) -> int
    decreases hi - lo,
{
    if hi <= lo {
        0
    } else {
        frag_sum(s, lo, hi - 1) + frag_width(s[hi - 1])
    }
}

pub proof fn lemma_frag_sum_frame(s1: Seq<Fragment>, s2: Seq<Fragment>, lo: int, hi: int)
    requires
        forall|k: int| lo <= k < hi ==> frag_width(#[trigger] s1[k]) == frag_width(s2[k]),
    ensures
        frag_sum(s1, lo, hi) == frag_sum(s2, lo, hi),
    decreases hi - lo,
{
    if hi > lo {
        lemma_frag_sum_frame(s1, s2, lo, hi - 1);
    }
}

/// Extents are never negative, so what is left of the content never exceeds
/// the whole.
pub proof fn lemma_extent_nonneg(items: Seq<InlineItem>, i: int)
    requires
        forall|j: int| 0 <= j < items.len() ==> item_ok(#[trigger] items[j]),
        0 <= i,
    ensures
        extent_from(items, i) >= 0,
        units_from(items, i) >= 0,
    decreases items.len() - i,
{
    if i < items.len() {
        lemma_extent_nonneg(items, i + 1);
        assert(item_ok(items[i]));
        match items[i] {
            InlineItem::Text(t) => {
                lemma_adv_sum_within(t.advances@, 0, 0, 0, t.advances@.len() as int);
                lemma_adv_sum_within(
                    t.advances@,
                    0,
                    t.advances@.len() as int,
                    0,
                    t.advances@.len() as int,
                );
            },
            _ => {},
        }
    }
}


/// An atomic box, or a single character: what may overflow a line alone.
pub open spec fn unit_source(src: FragmentSource) -> bool {
    match src {
        FragmentSource::Atomic { .. } => true,
        FragmentSource::Text { start, end, .. } => end == start + 1,
    }
}

pub open spec fn frag_ok(f: Fragment) -> bool {
    let d = f.dims;
    &&& d.content.width >= 0
    &&& d.padding.left >= 0 && d.padding.right >= 0
    &&& d.border.left >= 0 && d.border.right >= 0
    &&& d.margin.left >= 0 && d.margin.right >= 0
    &&& frag_width(f) <= MAX_TOTAL
    &&& 0 <= d.content.height <= 2 * MAX_LEN
    &&& len_ok(f.ascent)
}

pub open spec fn rights_sum(frames: Seq<Frame>) -> int
    decreases frames.len(),
{
    if frames.len() == 0 {
        0
    } else {
        rights_sum(frames.drop_last()) + frames.last().dims.right_offset_spec()
    }
}

/// The right edges that open inline boxes will add to the open line: those
/// of the boxes that already hold a fragment.
pub open spec fn committed_right(frames: Seq<Frame>, end: int) -> int
    decreases frames.len(),
{
    if frames.len() == 0 {
        0
    } else {
        committed_right(frames.drop_last(), end) + if frames.last().first < end {
            frames.last().dims.right_offset_spec()
        } else {
            0
        }
    }
}

pub open spec fn frames_ok(frames: Seq<Frame>, end: int) -> bool {
    forall|k: int|
        0 <= k < frames.len() ==> (#[trigger] frames[k]).dims.wf() && frames[k].first <= end
}

proof fn lemma_committed_all(frames: Seq<Frame>, end: int)
    requires
        frames_ok(frames, end),
    ensures
        committed_right(frames, end + 1) == rights_sum(frames),
        0 <= committed_right(frames, end) <= rights_sum(frames),
    decreases frames.len(),
{
    if frames.len() > 0 {
        assert(frames_ok(frames.drop_last(), end));
        lemma_committed_all(frames.drop_last(), end);
        assert(frames[frames.len() - 1].dims.wf());
    }
}

/// Each line was laid in the band free of floats at its top.
#[verifier::opaque]
pub open spec fn zones_ok(lines: Seq<Line>, bands: Seq<FloatBand>, max_width: int) -> bool {
    forall|k: int|
        0 <= k < lines.len() ==> (#[trigger] lines[k]).zone == zone_at(
            bands,
            max_width,
            line_top(lines, k),
        )
}

/// Lines `lines` cover fragments `0..start` in order, each with its width and
/// metrics; where `max_width` is not negative, each line fits its band, which
/// fits `max_width`, unless it holds a single fragment.
pub open spec fn lines_ok(lines: Seq<Line>, frags: Seq<Fragment>, start: int, max_width: int) -> bool {
    &&& lines.len() == 0 ==> start == 0
    &&& lines.len() > 0 ==> lines[0].start == 0 && lines.last().end == start
    &&& forall|k: int|
        0 <= k < lines.len() ==> {
            let l = #[trigger] lines[k];
            &&& l.start <= l.end
            &&& l.width == frag_sum(frags, l.start as int, l.end as int)
            &&& 0 <= l.width <= MAX_TOTAL
            &&& l.metrics.wf()
            &&& 0 <= l.zone.x <= MAX_LEN && -1 <= l.zone.width <= MAX_LEN
            &&& max_width >= 0 ==> l.zone.width <= max_width && (l.width <= l.zone.width || (
            l.end - l.start == 1 && unit_source(frags[l.start as int].source)))
        }
    &&& forall|k: int| 0 <= k < lines.len() - 1 ==> #[trigger] lines[k].end == lines[k + 1].start
}

pub proof fn lemma_lines_frame(
    lines: Seq<Line>,
    f1: Seq<Fragment>,
    f2: Seq<Fragment>,
    start: int,
    max_width: int,
)
    requires
        lines_ok(lines, f1, start, max_width),
        start <= f1.len(),
        start <= f2.len(),
        forall|k: int|
            0 <= k < start ==> frag_width(#[trigger] f2[k]) == frag_width(f1[k]) && f2[k].source
                == f1[k].source,
    ensures
        lines_ok(lines, f2, start, max_width),
{
    assert forall|k: int| 0 <= k < lines.len() implies #[trigger] lines[k].width == frag_sum(
        f2,
        lines[k].start as int,
        lines[k].end as int,
    ) && (lines[k].end - lines[k].start == 1 ==> f2[lines[k].start as int].source
        == f1[lines[k].start as int].source) by {
        lemma_line_bounds(lines, f1, start, max_width, k);
        lemma_frag_sum_frame(f1, f2, lines[k].start as int, lines[k].end as int);
    }
}

/// Fragments `0..end`, of which only the last is new or changed: the closed
/// lines, the open line's sum and every fragment's bounds carry over.
pub proof fn lemma_last_fragment_changed(
    lines: Seq<Line>,
    f1: Seq<Fragment>,
    f2: Seq<Fragment>,
    start: int,
    end: int,
    max_width: int,
    cur_width: int,
)
    requires
        lines_ok(lines, f1, start, max_width),
        0 <= start < end,
        end - 1 <= f1.len(),
        f2.len() == end,
        forall|k: int| 0 <= k < end - 1 ==> #[trigger] f2[k] == f1[k],
        forall|k: int| 0 <= k < end - 1 ==> frag_ok(#[trigger] f1[k]),
        forall|k: int| start <= k < end - 1 ==> frag_width(#[trigger] f1[k]) <= cur_width,
        frag_ok(f2[end - 1]),
        frag_width(f2[end - 1]) <= cur_width,
    ensures
        frag_sum(f2, start, end - 1) == frag_sum(f1, start, end - 1),
        lines_ok(lines, f2, start, max_width),
        forall|k: int| 0 <= k < end ==> frag_ok(#[trigger] f2[k]),
        forall|k: int| start <= k < end ==> frag_width(#[trigger] f2[k]) <= cur_width,
{
    lemma_frag_sum_frame(f1, f2, start, end - 1);
    lemma_lines_frame(lines, f1, f2, start, max_width);
    assert forall|k: int| 0 <= k < end implies frag_ok(#[trigger] f2[k]) by {
        if k < end - 1 {
            assert(f2[k] == f1[k]);
        }
    }
}

/// Every line lies within fragments `0..start`.
pub proof fn lemma_line_bounds(
    lines: Seq<Line>,
    frags: Seq<Fragment>,
    start: int,
    max_width: int,
    k: int,
)
    requires
        lines_ok(lines, frags, start, max_width),
        0 <= k < lines.len(),
    ensures
        0 <= lines[k].start <= lines[k].end <= start,
    decreases lines.len() - k,
{
    if k + 1 < lines.len() {
        lemma_line_bounds(lines, frags, start, max_width, k + 1);
        assert(lines[k].end == lines[k + 1].start);
    }
    if k > 0 {
        lemma_line_lower(lines, frags, start, max_width, k);
    }
}

proof fn lemma_line_lower(lines: Seq<Line>, frags: Seq<Fragment>, start: int, max_width: int, k: int)
    requires
        lines_ok(lines, frags, start, max_width),
        0 <= k < lines.len(),
    ensures
        0 <= lines[k].start,
    decreases k,
{
    if k > 0 {
        lemma_line_lower(lines, frags, start, max_width, k - 1);
        assert(lines[k - 1].end == lines[k].start);
    }
}

/// Lays out one inline formatting context: breaks its items into lines and
/// then places every fragment.
pub struct LineMaker {
    pub items: Vec<InlineItem>,
    pub floats: Floats,
    pub new_boxes: Vec<Fragment>,
    pub lines: Vec<Line>,
    pub start: usize,
    pub end: usize,
    pub cur_width: i64,
    pub cur_height: i64,
    pub cur_metrics: LineMetrics,
    /// The band that the open line is laid in.
    pub zone: Zone,
    /// The width that lines must fit, or a negative value to measure content
    /// on a single line.
    pub max_width: i64,
    /// The inline boxes open at this point of the content.
    pub frames: Vec<Frame>,
    /// Left padding of open inline boxes that no fragment has carried yet.
    pub pend_padding: i64,
    /// Left border of open inline boxes that no fragment has carried yet.
    pub pend_border: i64,
    /// Left margin of open inline boxes that no fragment has carried yet.
    pub pend_margin: i64,
    /// The summed right edges of the open inline boxes.
    pub open_right: i64,
    /// For each item, the index of the first fragment made from it.
    pub item_starts: Ghost<Seq<int>>,
}

impl LineMaker {
    pub open spec fn shrink(&self) -> bool {
        self.max_width < 0
    }

    /// Nothing laid out yet.
    pub open spec fn fresh(&self) -> bool {
        &&& self.new_boxes@.len() == 0
        &&& self.lines@.len() == 0
        &&& self.start == 0 && self.end == 0
        &&& self.cur_width == 0 && self.cur_height == 0
        &&& self.cur_metrics == (LineMetrics { above_baseline: 0, under_baseline: 0 })
        &&& self.frames@.len() == 0
        &&& self.pend_padding == 0 && self.pend_border == 0 && self.pend_margin == 0
        &&& self.open_right == 0
    }

    /// The room left on the open line for a fragment, after the pending left
    /// edges and the right edges of the open boxes.
    pub open spec fn room(&self) -> int {
        self.zone.width - self.open_right - self.cur_width - self.pending_total()
    }

    /// `base` put on the line now, as a fragment showing `source`.
    pub open spec fn carried(&self, source: FragmentSource, base: Dimensions, ascent: i64) -> Fragment {
        Fragment {
            source,
            dims: with_left(base, self.pend_padding, self.pend_border, self.pend_margin),
            ascent,
        }
    }

    /// Whether an atomic box `d` wide closes the open line before it.
    pub open spec fn breaks_before(&self, width: int) -> bool {
        self.max_width >= 0 && width > self.room() && self.start < self.end
    }

    /// The open line as it would be recorded now.
    pub open spec fn open_line(&self) -> Line {
        Line {
            start: self.start,
            end: self.end,
            metrics: self.cur_metrics,
            width: self.cur_width,
            zone: self.zone,
        }
    }

    pub open spec fn pending_total(&self) -> int {
        self.pend_padding + self.pend_border + self.pend_margin
    }

    /// What holds between calls while lines are being made.
    pub open spec fn wf_state(&self) -> bool {
        &&& self.end == self.new_boxes@.len()
        &&& self.start <= self.end <= MAX_UNITS
        &&& self.start == self.end ==> self.cur_width == 0
        &&& self.cur_width == frag_sum(self.new_boxes@, self.start as int, self.end as int)
        &&& forall|k: int| 0 <= k < self.end ==> frag_ok(#[trigger] self.new_boxes@[k])
        &&& forall|k: int|
            self.start <= k < self.end ==> frag_width(#[trigger] self.new_boxes@[k])
                <= self.cur_width
        &&& self.cur_metrics.wf()
        &&& lines_ok(self.lines@, self.new_boxes@, self.start as int, self.max_width as int)
        &&& self.lines@.len() <= MAX_UNITS + 1
        &&& 0 <= self.cur_height <= self.lines@.len() * MAX_LINE_HEIGHT
        &&& self.cur_height == line_top(self.lines@, self.lines@.len() as int)
        &&& !self.shrink() ==> zones_ok(self.lines@, self.floats.bands@, self.max_width as int)
        &&& self.floats.wf()
        &&& self.max_width <= MAX_LEN
        &&& !self.shrink() ==> self.zone == zone_at(
            self.floats.bands@,
            self.max_width as int,
            self.cur_height as int,
        ) && 0 <= self.zone.width <= self.max_width && 0 <= self.zone.x <= MAX_LEN
        &&& self.shrink() ==> self.zone == (Zone { x: 0, width: -1i64, ceiling: 0 })
        &&& !self.shrink() ==> (self.end == self.start || (self.end - self.start == 1 && unit_source(
            self.new_boxes@[self.start as int].source,
        )) || self.cur_width + committed_right(
            self.frames@,
            self.end as int,
        ) <= self.zone.width)
        &&& self.pend_padding >= 0 && self.pend_border >= 0 && self.pend_margin >= 0
        &&& self.open_right == rights_sum(self.frames@)
        &&& forall|k: int| 0 <= k < self.frames@.len() ==> (#[trigger] self.frames@[k]).dims.wf()
        &&& forall|k: int| 0 <= k < self.frames@.len() ==> (#[trigger] self.frames@[k]).first <= self.end
        &&& self.open_right >= 0
        &&& 0 <= self.cur_width
        &&& self.cur_width + self.pending_total() + self.open_right <= MAX_TOTAL
    }
}


/// `base` with the left padding, border and margin of the inline boxes that
/// begin with it added to its own.
pub open spec fn with_left(base: Dimensions, pp: i64, pb: i64, pm: i64) -> Dimensions {
    Dimensions {
        padding: EdgeSizes { left: (base.padding.left + pp) as i64, ..base.padding },
        border: EdgeSizes { left: (base.border.left + pb) as i64, ..base.border },
        margin: EdgeSizes { left: (base.margin.left + pm) as i64, ..base.margin },
        ..base
    }
}

/// Fragment `f` with the right padding, border and margin of `d` added to
/// its own.
pub open spec fn with_right(f: Fragment, d: Dimensions) -> Fragment {
    Fragment {
        dims: Dimensions {
            padding: EdgeSizes { right: (f.dims.padding.right + d.padding.right) as i64, ..f.dims.padding },
            border: EdgeSizes { right: (f.dims.border.right + d.border.right) as i64, ..f.dims.border },
            margin: EdgeSizes { right: (f.dims.margin.right + d.margin.right) as i64, ..f.dims.margin },
            ..f.dims
        },
        ..f
    }
}

pub open spec fn base_ok(base: Dimensions) -> bool {
    &&& 0 <= base.content.width <= MAX_TOTAL
    &&& 0 <= base.content.height <= 2 * MAX_LEN
    &&& base.padding.wf() && base.border.wf() && base.margin.wf()
}

pub open spec fn max_spec(a: i64, b: int) -> i64 {
    if b > a {
        b as i64
    } else {
        a
    }
}

impl LineMaker {
    /// A line maker for the inline content of `boxes`, with floats `floats`,
    /// before any line is made.
    pub fn new(boxes: Vec<LayoutBox>, floats: Floats) -> (r: LineMaker)
        requires
            forall|i: int| 0 <= i < boxes@.len() ==> tree_ok(#[trigger] boxes@[i]),
        ensures
            r.items@ == boxes_items(boxes@, boxes@.len() as int),
            r.floats.bands@ == floats.bands@,
            r.fresh(),
    {
        LineMaker::from_items(boxes_to_items(boxes), floats)
    }

    /// A line maker for `items`, with floats `floats`, before any line is made.
    pub fn from_items(items: Vec<InlineItem>, floats: Floats) -> (r: LineMaker)
        ensures
            r.items@ == items@,
            r.floats.bands@ == floats.bands@,
            r.fresh(),
    {
        LineMaker {
            items,
            floats,
            new_boxes: Vec::new(),
            lines: Vec::new(),
            start: 0,
            end: 0,
            cur_width: 0,
            cur_height: 0,
            cur_metrics: LineMetrics::new(0, 0),
            zone: Zone { x: 0, width: -1, ceiling: 0 },
            max_width: -1,
            frames: Vec::new(),
            pend_padding: 0,
            pend_border: 0,
            pend_margin: 0,
            open_right: 0,
            item_starts: Ghost(Seq::empty()),
        }
    }

    /// Records the open line (its fragments, metrics, width and band), moves
    /// down by its height and starts the next line at the next fragment.
    /// The caller resets the width and metrics for the next line.
    pub fn flush_cur_line(&mut self)
        requires
            old(self).wf_state(),
            old(self).lines@.len() <= MAX_UNITS,
        ensures
            final(self).lines@ == old(self).lines@.push(old(self).open_line()),
            final(self).cur_height == old(self).cur_height + old(self).cur_metrics.height_spec(),
            final(self).start == old(self).end,
            final(self).cur_width == old(self).cur_width,
            final(self).cur_metrics == old(self).cur_metrics,
            final(self).zone == old(self).zone,
            final(self).new_boxes@ == old(self).new_boxes@,
            final(self).end == old(self).end,
            final(self).items@ == old(self).items@,
            final(self).floats.bands@ == old(self).floats.bands@,
            final(self).max_width == old(self).max_width,
            final(self).frames@ == old(self).frames@,
            final(self).pend_padding == old(self).pend_padding,
            final(self).pend_border == old(self).pend_border,
            final(self).pend_margin == old(self).pend_margin,
            final(self).open_right == old(self).open_right,
            final(self).item_starts == old(self).item_starts,
    {
        let line = Line {
            start: self.start,
            end: self.end,
            metrics: self.cur_metrics,
            width: self.cur_width,
            zone: self.zone,
        };
        let h = self.cur_metrics.calculate_line_height();
        self.lines.push(line);
        self.cur_height = self.cur_height + h;
        self.start = self.end;
    }

    /// Closes the open line (see `flush_cur_line`) and starts the next one
    /// empty, in the band free of floats at the new height.
    fn close_line(&mut self)
        requires
            old(self).wf_state(),
            old(self).lines@.len() <= MAX_UNITS,
        ensures
            final(self).wf_state(),
            final(self).lines@ == old(self).lines@.push(old(self).open_line()),
            final(self).cur_height == old(self).cur_height + old(self).cur_metrics.height_spec(),
            final(self).start == old(self).end,
            final(self).cur_width == 0,
            final(self).cur_metrics == (LineMetrics { above_baseline: 0, under_baseline: 0 }),
            final(self).new_boxes@ == old(self).new_boxes@,
            final(self).end == old(self).end,
            final(self).items@ == old(self).items@,
            final(self).floats.bands@ == old(self).floats.bands@,
            final(self).max_width == old(self).max_width,
            final(self).frames@ == old(self).frames@,
            final(self).pend_padding == old(self).pend_padding,
            final(self).pend_border == old(self).pend_border,
            final(self).pend_margin == old(self).pend_margin,
            final(self).open_right == old(self).open_right,
            final(self).item_starts == old(self).item_starts,
            final(self).shrink() ==> final(self).zone == old(self).zone,
    {
        proof {
            lemma_committed_all(self.frames@, self.end as int);
            assert forall|k: int| 0 <= k <= self.lines@.len() implies line_top(
                self.lines@.push(self.open_line()),
                k,
            ) == #[trigger] line_top(self.lines@, k) by {
                lemma_line_top_push(self.lines@, self.open_line(), k);
            }
            reveal(zones_ok);
        }
        self.flush_cur_line();
        self.cur_width = 0;
        self.cur_metrics.reset();
        if self.max_width >= 0 {
            self.zone = self.floats.available_area(self.max_width, self.cur_height);
        }
        proof {
            let ls = self.lines@;
            assert forall|k: int| 0 <= k < ls.len() - 1 implies #[trigger] ls[k].end == ls[k
                + 1].start by {
                if k < ls.len() - 2 {
                    assert(ls[k] == old(self).lines@[k]);
                    assert(ls[k + 1] == old(self).lines@[k + 1]);
                }
            }
        }
    }

    /// Closes the last line, whatever it holds.
    pub fn end_of_lines(&mut self)
        requires
            old(self).wf_state(),
            old(self).lines@.len() <= MAX_UNITS,
        ensures
            final(self).wf_state(),
            final(self).lines@ == old(self).lines@.push(old(self).open_line()),
            final(self).new_boxes@ == old(self).new_boxes@,
            final(self).items@ == old(self).items@,
            final(self).max_width == old(self).max_width,
            final(self).item_starts == old(self).item_starts,
            final(self).start == old(self).end,
            final(self).max_width >= 0 ==> forall|k: int|
                0 <= k < final(self).lines@.len() ==> #[trigger] final(self).lines@[k].width
                    <= final(self).max_width || (final(self).lines@[k].end
                    - final(self).lines@[k].start == 1 && unit_source(
                    final(self).new_boxes@[final(self).lines@[k].start as int].source,
                )),
            old(self).lines@.len() == 0 ==> final(self).lines@.len() == 1
                && final(self).lines@[0].start == 0 && final(self).lines@[0].end
                == final(self).new_boxes@.len() && final(self).lines@[0].width == frag_sum(
                final(self).new_boxes@,
                0,
                final(self).new_boxes@.len() as int,
            ),
    {
        self.close_line()
    }

    /// The width that the content needs: that of its widest line.
    pub fn intrinsic_width(&self) -> (r: i64)
        requires
            self.wf_state(),
        ensures
            forall|k: int| 0 <= k < self.lines@.len() ==> self.lines@[k].width <= r,
            r == 0 || exists|k: int| 0 <= k < self.lines@.len() && self.lines@[k].width == r,
            self.lines@.len() == 1 ==> r == self.lines@[0].width,
    {
        let mut best: i64 = 0;
        let mut i: usize = 0;
        while i < self.lines.len()
            invariant
                self.wf_state(),
                i <= self.lines@.len(),
                forall|k: int| 0 <= k < i ==> self.lines@[k].width <= best,
                best == 0 || exists|k: int| 0 <= k < i && self.lines@[k].width == best,
            decreases self.lines@.len() - i,
        {
            if self.lines[i].width > best {
                best = self.lines[i].width;
            }
            i = i + 1;
        }
        best
    }
}


impl LineMaker {
    /// Puts a fragment on the open line. `base` is its own box; it also takes
    /// the left edges of the inline boxes that begin with it. The line's
    /// metrics grow to at least `above` and `under`.
    fn place(&mut self, source: FragmentSource, base: Dimensions, ascent: i64, above: i64, under: i64)
        requires
            old(self).wf_state(),
            base_ok(base),
            len_ok(ascent),
            above <= 8 * MAX_LEN,
            under <= 8 * MAX_LEN,
            old(self).cur_width + old(self).pending_total() + base.margin_box_width_spec()
                + old(self).open_right <= MAX_TOTAL,
            old(self).end < MAX_UNITS,
            !old(self).shrink() && (old(self).end > old(self).start || !unit_source(source))
                ==> old(self).cur_width + old(self).pending_total() + base.margin_box_width_spec()
                + old(self).open_right <= old(self).zone.width,
        ensures
            final(self).wf_state(),
            final(self).new_boxes@ == old(self).new_boxes@.push(
                Fragment {
                    source,
                    dims: with_left(
                        base,
                        old(self).pend_padding,
                        old(self).pend_border,
                        old(self).pend_margin,
                    ),
                    ascent,
                },
            ),
            final(self).cur_width == old(self).cur_width + old(self).pending_total()
                + base.margin_box_width_spec(),
            final(self).end == old(self).end + 1,
            final(self).pend_padding == 0 && final(self).pend_border == 0
                && final(self).pend_margin == 0,
            final(self).cur_metrics.above_baseline == max_spec(
                old(self).cur_metrics.above_baseline,
                above as int,
            ),
            final(self).cur_metrics.under_baseline == max_spec(
                old(self).cur_metrics.under_baseline,
                under as int,
            ),
            final(self).lines@ == old(self).lines@,
            final(self).start == old(self).start,
            final(self).zone == old(self).zone,
            final(self).cur_height == old(self).cur_height,
            final(self).items@ == old(self).items@,
            final(self).floats.bands@ == old(self).floats.bands@,
            final(self).max_width == old(self).max_width,
            final(self).frames@ == old(self).frames@,
            final(self).open_right == old(self).open_right,
            final(self).item_starts == old(self).item_starts,
    {
        proof {
            lemma_committed_all(self.frames@, self.end as int);
        }
        let mut dims = base;
        dims.padding.left = base.padding.left + self.pend_padding;
        dims.border.left = base.border.left + self.pend_border;
        dims.margin.left = base.margin.left + self.pend_margin;
        let w = base.content.width + base.padding.left + base.border.left + base.margin.left
            + base.padding.right + base.border.right + base.margin.right + self.pend_padding + self.pend_border + self.pend_margin;
        let frag = Fragment { source, dims, ascent };
        proof {
            assert(dims == with_left(base, self.pend_padding, self.pend_border, self.pend_margin));
            assert(frag_width(frag) == w);
        }
        let ghost old_boxes = self.new_boxes@;
        self.new_boxes.push(frag);
        self.end = self.end + 1;
        self.cur_width = self.cur_width + w;
        self.pend_padding = 0;
        self.pend_border = 0;
        self.pend_margin = 0;
        if above > self.cur_metrics.above_baseline {
            self.cur_metrics.above_baseline = above;
        }
        if under > self.cur_metrics.under_baseline {
            self.cur_metrics.under_baseline = under;
        }
        proof {
            let nb = self.new_boxes@;
            lemma_last_fragment_changed(
                self.lines@,
                old_boxes,
                nb,
                self.start as int,
                self.end as int,
                self.max_width as int,
                self.cur_width as int,
            );
        }
    }

    /// Enters an inline box with edges `d`: its left edges wait for the
    /// first fragment inside it, its right edges narrow the room for what it
    /// holds.
    fn open_inline(&mut self, d: Dimensions)
        requires
            old(self).wf_state(),
            d.wf(),
            old(self).cur_width + old(self).pending_total() + old(self).open_right
                + d.left_offset_spec() + d.right_offset_spec() <= MAX_TOTAL,
        ensures
            final(self).wf_state(),
            final(self).frames@ == old(self).frames@.push(Frame { dims: d, first: old(self).end }),
            final(self).pending_total() == old(self).pending_total() + d.left_offset_spec(),
            final(self).pend_padding == old(self).pend_padding + d.padding.left,
            final(self).pend_border == old(self).pend_border + d.border.left,
            final(self).pend_margin == old(self).pend_margin + d.margin.left,
            final(self).cur_metrics == old(self).cur_metrics,
            final(self).open_right == old(self).open_right + d.right_offset_spec(),
            final(self).new_boxes@ == old(self).new_boxes@,
            final(self).end == old(self).end,
            final(self).start == old(self).start,
            final(self).cur_width == old(self).cur_width,
            final(self).lines@ == old(self).lines@,
            final(self).zone == old(self).zone,
            final(self).cur_height == old(self).cur_height,
            final(self).items@ == old(self).items@,
            final(self).floats.bands@ == old(self).floats.bands@,
            final(self).max_width == old(self).max_width,
            final(self).item_starts == old(self).item_starts,
    {
        let ghost old_frames = self.frames@;
        self.frames.push(Frame { dims: d, first: self.end });
        self.pend_padding = self.pend_padding + d.padding.left;
        self.pend_border = self.pend_border + d.border.left;
        self.pend_margin = self.pend_margin + d.margin.left;
        self.open_right = self.open_right + d.right_offset();
        proof {
            assert(self.frames@.drop_last() =~= old_frames);
        }
    }

    /// Leaves the innermost open inline box. Its right edges go to the last
    /// fragment inside it; a box that holds no fragment hands all its edges
    /// on to the next fragment.
    ///
    /// With `place`, this keeps a box's left edges on its first fragment only
    /// and its right edges on its last only, whether or not a line break
    /// fell inside the box, and margins are trimmed like padding and border.
    /// Keeping both edges on every piece of an unbroken box would count them
    /// once per piece and let a line outgrow its band.
    fn close_inline(&mut self)
        requires
            old(self).wf_state(),
            old(self).frames@.len() > 0,
        ensures
            final(self).wf_state(),
            final(self).frames@ == old(self).frames@.drop_last(),
            final(self).cur_width + final(self).pending_total() + final(self).open_right
                <= old(self).cur_width + old(self).pending_total() + old(self).open_right,
            ({
                let f = old(self).frames@.last();
                let n = old(self).end as int;
                if f.first < n && old(self).start < n {
                    final(self).new_boxes@ == old(self).new_boxes@.update(
                        n - 1,
                        with_right(old(self).new_boxes@[n - 1], f.dims),
                    )
                } else {
                    final(self).new_boxes@ == old(self).new_boxes@
                }
            }),
            ({
                let f = old(self).frames@.last();
                if f.first >= old(self).end {
                    &&& final(self).pend_padding == old(self).pend_padding + f.dims.padding.right
                    &&& final(self).pend_border == old(self).pend_border + f.dims.border.right
                    &&& final(self).pend_margin == old(self).pend_margin + f.dims.margin.right
                } else {
                    &&& final(self).pend_padding == old(self).pend_padding
                    &&& final(self).pend_border == old(self).pend_border
                    &&& final(self).pend_margin == old(self).pend_margin
                }
            }),
            final(self).new_boxes@.len() == old(self).new_boxes@.len(),
            forall|k: int|
                0 <= k < old(self).new_boxes@.len() ==> (#[trigger] final(self).new_boxes@[k]).source
                    == old(self).new_boxes@[k].source,
            forall|k: int|
                0 <= k < old(self).start ==> #[trigger] final(self).new_boxes@[k]
                    == old(self).new_boxes@[k],
            final(self).open_right == old(self).open_right - old(self).frames@.last().dims.right_offset_spec(),
            final(self).cur_width == old(self).cur_width + if old(self).frames@.last().first < old(self).end
                && old(self).start < old(self).end {
                old(self).frames@.last().dims.right_offset_spec()
            } else {
                0
            },
            final(self).cur_metrics == old(self).cur_metrics,
            final(self).end == old(self).end,
            final(self).start == old(self).start,
            final(self).lines@ == old(self).lines@,
            final(self).zone == old(self).zone,
            final(self).cur_height == old(self).cur_height,
            final(self).items@ == old(self).items@,
            final(self).floats.bands@ == old(self).floats.bands@,
            final(self).max_width == old(self).max_width,
            final(self).item_starts == old(self).item_starts,
    {
        let ghost old_frames = self.frames@;
        let ghost old_boxes = self.new_boxes@;
        proof {
            lemma_committed_all(old_frames.drop_last(), self.end as int);
            assert(frames_ok(old_frames.drop_last(), self.end as int));
        }
        let f = self.frames.pop().unwrap();
        proof {
            assert(old_frames[old_frames.len() - 1].dims.wf());
        }
        let r = f.dims.right_offset();
        self.open_right = self.open_right - r;
        if f.first < self.end && self.start < self.end {
            let last = self.end - 1;
            let mut b = self.new_boxes[last];
            proof {
                assert(frag_ok(b));
            }
            b.dims.padding.right = b.dims.padding.right + f.dims.padding.right;
            b.dims.border.right = b.dims.border.right + f.dims.border.right;
            b.dims.margin.right = b.dims.margin.right + f.dims.margin.right;
            self.new_boxes.set(last, b);
            self.cur_width = self.cur_width + r;
            proof {
                let nb = self.new_boxes@;
                lemma_last_fragment_changed(
                    self.lines@,
                    old_boxes,
                    nb,
                    self.start as int,
                    self.end as int,
                    self.max_width as int,
                    self.cur_width as int,
                );
            }
        } else if f.first >= self.end {
            self.pend_padding = self.pend_padding + f.dims.padding.right;
            self.pend_border = self.pend_border + f.dims.border.right;
            self.pend_margin = self.pend_margin + f.dims.margin.right;
        }
    }
}


/// The box of a text piece `width` wide in font `f`: as tall as the glyphs,
/// with no edges of its own.
pub open spec fn text_base(width: int, f: FontMetrics) -> Dimensions {
    Dimensions {
        content: Rect { x: 0, y: 0, width: width as i64, height: (f.ascent + f.descent) as i64 },
        padding: EdgeSizes { top: 0, right: 0, bottom: 0, left: 0 },
        border: EdgeSizes { top: 0, right: 0, bottom: 0, left: 0 },
        margin: EdgeSizes { top: 0, right: 0, bottom: 0, left: 0 },
    }
}

/// `f` shows characters of the run `t`: as wide as they advance, as tall as
/// the glyphs, with the run's ascent.
pub open spec fn piece_shape(f: Fragment, t: TextRun) -> bool {
    match f.source {
        FragmentSource::Text { start, end, .. } => {
            &&& f.dims.content.width == adv_sum(t.advances@, start as int, end as int)
            &&& f.dims.content.height == t.font.ascent + t.font.descent
            &&& f.ascent == t.font.ascent
        },
        _ => false,
    }
}

/// The height a text run needs above the baseline: its ascent and half the
/// leading.
pub open spec fn text_above(f: FontMetrics) -> int {
    f.ascent + half_of(f.line_height - (f.ascent + f.descent))
}

/// The depth a text run needs below the baseline: half the leading and its
/// descent.
pub open spec fn text_under(f: FontMetrics) -> int {
    half_of(f.line_height - (f.ascent + f.descent)) + f.descent
}

/// `v / 2`, rounded toward zero.
pub open spec fn half_of(v: int) -> int {
    if v >= 0 {
        v / 2
    } else {
        -((-v) / 2)
    }
}

pub open spec fn source_item(f: Fragment) -> int {
    match f.source {
        FragmentSource::Text { item, .. } => item as int,
        FragmentSource::Atomic { item } => item as int,
    }
}

pub open spec fn is_text(f: Fragment) -> bool {
    f.source is Text
}

pub open spec fn piece_start(f: Fragment) -> int {
    match f.source {
        FragmentSource::Text { start, .. } => start as int,
        _ => 0,
    }
}

pub open spec fn piece_end(f: Fragment) -> int {
    match f.source {
        FragmentSource::Text { end, .. } => end as int,
        _ => 0,
    }
}

pub open spec fn text_len(it: InlineItem) -> int {
    match it {
        InlineItem::Text(t) => t.advances@.len() as int,
        _ => 0,
    }
}

/// Fragments `a..b` show characters `0..p` of the text item `j`: in order,
/// each one non-empty, each starting where the one before ends.
pub open spec fn text_pieces(frags: Seq<Fragment>, j: int, a: int, b: int, p: int) -> bool {
    &&& 0 <= a <= b <= frags.len()
    &&& (a == b) == (p == 0)
    &&& forall|k: int|
        a <= k < b ==> is_text(#[trigger] frags[k]) && source_item(frags[k]) == j
            && piece_start(frags[k]) < piece_end(frags[k])
    &&& b > a ==> piece_start(frags[a]) == 0 && piece_end(frags[b - 1]) == p
    &&& forall|k: int| a <= k < b - 1 ==> piece_end(#[trigger] frags[k]) == piece_start(frags[k + 1])
}

/// `marks[j]` is where the fragments of item `j` begin, for the first `i`
/// items: they run up to `marks[j + 1]`, and those of a text item show the
/// whole text.
pub open spec fn marks_ok(items: Seq<InlineItem>, frags: Seq<Fragment>, marks: Seq<int>, i: int) -> bool {
    &&& marks.len() == i + 1
    &&& marks[0] == 0
    &&& marks[i] <= frags.len()
    &&& forall|j: int| 0 <= j < i ==> #[trigger] marks[j] <= marks[j + 1]
    &&& forall|j: int|
        0 <= j < i ==> forall|k: int|
            #![trigger frags[k]]
            #[trigger] marks[j] <= k < marks[j + 1] ==> source_item(frags[k]) == j
    &&& forall|j: int|
        0 <= j < i && (#[trigger] items[j]) is Text ==> text_pieces(
            frags,
            j,
            marks[j],
            marks[j + 1],
            text_len(items[j]),
        )
}

/// `f` is the atomic box `d` with ascent `a`, its content and vertical edges
/// as they were and at least its horizontal edges.
pub open spec fn atomic_shape(f: Fragment, d: Dimensions, a: i64) -> bool {
    &&& f.dims.content.width == d.content.width
    &&& f.dims.content.height == d.content.height
    &&& f.ascent == a
    &&& f.dims.padding.top == d.padding.top && f.dims.padding.bottom == d.padding.bottom
    &&& f.dims.border.top == d.border.top && f.dims.border.bottom == d.border.bottom
    &&& f.dims.margin.top == d.margin.top && f.dims.margin.bottom == d.margin.bottom
    &&& keeps_left(f, d)
    &&& keeps_right(f, d)
}

/// `f` carries at least the left edges of `d`.
pub open spec fn keeps_left(f: Fragment, d: Dimensions) -> bool {
    &&& f.dims.padding.left >= d.padding.left
    &&& f.dims.border.left >= d.border.left
    &&& f.dims.margin.left >= d.margin.left
}

/// `f` carries at least the right edges of `d`.
pub open spec fn keeps_right(f: Fragment, d: Dimensions) -> bool {
    &&& f.dims.padding.right >= d.padding.right
    &&& f.dims.border.right >= d.border.right
    &&& f.dims.margin.right >= d.margin.right
}

/// What item `j` made: pieces of its text, one fragment for an atomic box,
/// nothing for the start or end of an inline box or unsupported content.
pub open spec fn item_shape(items: Seq<InlineItem>, frags: Seq<Fragment>, marks: Seq<int>, j: int) -> bool {
    match items[j] {
        InlineItem::Text(t) => forall|k: int|
            marks[j] <= k < marks[j + 1] ==> piece_shape(#[trigger] frags[k], t),
        InlineItem::Atomic(d, a) => {
            &&& marks[j + 1] == marks[j] + 1
            &&& frags[marks[j]].source == (FragmentSource::Atomic { item: j as usize })
            &&& atomic_shape(frags[marks[j]], d, a)
        },
        _ => marks[j + 1] == marks[j],
    }
}

pub open spec fn shapes_ok(items: Seq<InlineItem>, frags: Seq<Fragment>, marks: Seq<int>, i: int) -> bool {
    forall|j: int| 0 <= j < i ==> #[trigger] item_shape(items, frags, marks, j)
}

/// `g` is `f` with the same source, content and ascent, and edges no
/// smaller.
pub open spec fn grown_from(g: Fragment, f: Fragment) -> bool {
    &&& g.source == f.source
    &&& g.ascent == f.ascent
    &&& g.dims.content.width == f.dims.content.width
    &&& g.dims.content.height == f.dims.content.height
    &&& g.dims.padding.top == f.dims.padding.top && g.dims.padding.bottom == f.dims.padding.bottom
    &&& g.dims.border.top == f.dims.border.top && g.dims.border.bottom == f.dims.border.bottom
    &&& g.dims.margin.top == f.dims.margin.top && g.dims.margin.bottom == f.dims.margin.bottom
    &&& keeps_left(g, f.dims)
    &&& keeps_right(g, f.dims)
}

pub proof fn lemma_shapes_frame(
    items: Seq<InlineItem>,
    f1: Seq<Fragment>,
    f2: Seq<Fragment>,
    marks: Seq<int>,
    i: int,
)
    requires
        shapes_ok(items, f1, marks, i),
        marks_ok(items, f1, marks, i),
        marks[i] <= f2.len(),
        forall|k: int| 0 <= k < marks[i] ==> grown_from(#[trigger] f2[k], f1[k]),
    ensures
        shapes_ok(items, f2, marks, i),
{
    assert forall|j: int| 0 <= j < i implies #[trigger] item_shape(items, f2, marks, j) by {
        lemma_marks_bound(items, f1, marks, i, j);
        assert(item_shape(items, f1, marks, j));
        match items[j] {
            InlineItem::Text(t) => {
                assert forall|k: int| marks[j] <= k < marks[j + 1] implies piece_shape(
                    #[trigger] f2[k],
                    t,
                ) by {
                    assert(grown_from(f2[k], f1[k]));
                    assert(piece_shape(f1[k], t));
                }
            },
            InlineItem::Atomic(d, a) => {
                assert(grown_from(f2[marks[j]], f1[marks[j]]));
            },
            _ => {},
        }
    }
}

/// The item `i`, once laid out, joins the others.
pub proof fn lemma_shapes_next(
    items: Seq<InlineItem>,
    frags: Seq<Fragment>,
    marks: Seq<int>,
    x: int,
    i: int,
)
    requires
        shapes_ok(items, frags, marks, i),
        marks.len() == i + 1,
        0 <= i < items.len(),
        item_shape(items, frags, marks.push(x), i),
    ensures
        shapes_ok(items, frags, marks.push(x), i + 1),
{
    let m2 = marks.push(x);
    assert forall|j: int| 0 <= j < i + 1 implies #[trigger] item_shape(items, frags, m2, j) by {
        if j < i {
            assert(item_shape(items, frags, marks, j));
            assert(m2[j] == marks[j] && m2[j + 1] == marks[j + 1]);
        }
    }
}

/// A text item's pieces join the shapes of the items before it.
pub proof fn lemma_text_shapes(
    items: Seq<InlineItem>,
    f1: Seq<Fragment>,
    f2: Seq<Fragment>,
    marks: Seq<int>,
    i: int,
    t: TextRun,
)
    requires
        shapes_ok(items, f1, marks, i),
        marks_ok(items, f1, marks, i),
        0 <= i < items.len(),
        items[i] == InlineItem::Text(t),
        marks[i] == f1.len(),
        f2.len() >= f1.len(),
        forall|k: int| 0 <= k < f1.len() ==> #[trigger] f2[k] == f1[k],
        forall|k: int| f1.len() <= k < f2.len() ==> piece_shape(#[trigger] f2[k], t),
    ensures
        shapes_ok(items, f2, marks.push(f2.len() as int), i + 1),
{
    assert forall|k: int| 0 <= k < marks[i] implies grown_from(#[trigger] f2[k], f1[k]) by {
        assert(f2[k] == f1[k]);
    }
    lemma_shapes_frame(items, f1, f2, marks, i);
    let m2 = marks.push(f2.len() as int);
    assert(m2[i] == marks[i] && m2[i + 1] == f2.len());
    lemma_shapes_next(items, f2, marks, f2.len() as int, i);
}

impl LineMaker {
    /// What holds after the first `i` items are laid out.
    pub open spec fn run_inv(&self, items: Seq<InlineItem>, i: int) -> bool {
        &&& self.wf_state()
        &&& items_ok(items)
        &&& 0 <= i <= items.len()
        &&& self.cur_width + self.pending_total() + self.open_right + extent_from(items, i)
            <= MAX_TOTAL
        &&& self.end + units_from(items, i) <= MAX_UNITS
        &&& self.lines@.len() <= self.start
        &&& self.shrink() ==> self.lines@.len() == 0
        &&& marks_ok(items, self.new_boxes@, self.item_starts@, i)
        &&& self.item_starts@[i] == self.end
        &&& self.end > 0 ==> self.start < self.end
        &&& shapes_ok(items, self.new_boxes@, self.item_starts@, i)
    }
}


pub proof fn lemma_text_pieces_push(
    frags: Seq<Fragment>,
    f: Fragment,
    j: int,
    a: int,
    p: int,
    q: int,
)
    requires
        text_pieces(frags, j, a, frags.len() as int, p),
        is_text(f),
        source_item(f) == j,
        piece_start(f) == p,
        piece_end(f) == q,
        p < q,
    ensures
        text_pieces(frags.push(f), j, a, frags.len() + 1int, q),
{
    let nf = frags.push(f);
    let b = frags.len() as int;
    assert forall|k: int| a <= k < b + 1 implies is_text(#[trigger] nf[k]) && source_item(nf[k])
        == j && piece_start(nf[k]) < piece_end(nf[k]) by {
        if k < b {
            assert(nf[k] == frags[k]);
        }
    }
    assert forall|k: int| a <= k < b implies piece_end(#[trigger] nf[k]) == piece_start(
        nf[k + 1],
    ) by {
        assert(nf[k] == frags[k]);
        if k < b - 1 {
            assert(nf[k + 1] == frags[k + 1]);
        }
    }
    if b > a {
        assert(nf[a] == frags[a]);
    }
}

pub proof fn lemma_marks_push(
    items: Seq<InlineItem>,
    frags: Seq<Fragment>,
    f: Fragment,
    marks: Seq<int>,
    i: int,
)
    requires
        marks_ok(items, frags, marks, i),
    ensures
        marks_ok(items, frags.push(f), marks, i),
{
    let nf = frags.push(f);
    assert forall|j: int| 0 <= j < i implies forall|k: int|
        #![trigger nf[k]]
        #[trigger] marks[j] <= k < marks[j + 1] ==> source_item(nf[k]) == j by {
        assert forall|k: int| #[trigger] marks[j] <= k < marks[j + 1] implies source_item(nf[k])
            == j by {
            lemma_marks_bound(items, frags, marks, i, j);
            assert(nf[k] == frags[k]);
        }
    }
    assert forall|j: int| 0 <= j < i && (#[trigger] items[j]) is Text implies text_pieces(
        nf,
        j,
        marks[j],
        marks[j + 1],
        text_len(items[j]),
    ) by {
        lemma_marks_bound(items, frags, marks, i, j);
        let tp = text_pieces(frags, j, marks[j], marks[j + 1], text_len(items[j]));
        assert(tp);
        assert forall|k: int| marks[j] <= k < marks[j + 1] implies #[trigger] nf[k] == frags[k] by {
        }
    }
}

/// Marks never pass the last one.
pub proof fn lemma_marks_bound(
    items: Seq<InlineItem>,
    frags: Seq<Fragment>,
    marks: Seq<int>,
    i: int,
    j: int,
)
    requires
        marks_ok(items, frags, marks, i),
        0 <= j <= i,
    ensures
        0 <= marks[j] <= marks[i],
        j < i ==> marks[j + 1] <= marks[i],
    decreases i - j,
{
    if j < i {
        lemma_marks_bound(items, frags, marks, i, j + 1);
        assert(marks[j] <= marks[j + 1]);
    }
    if j > 0 {
        lemma_marks_lower(items, frags, marks, i, j);
    }
}

proof fn lemma_marks_lower(items: Seq<InlineItem>, frags: Seq<Fragment>, marks: Seq<int>, i: int, j: int)
    requires
        marks_ok(items, frags, marks, i),
        0 <= j <= i,
    ensures
        0 <= marks[j],
    decreases j,
{
    if j > 0 {
        lemma_marks_lower(items, frags, marks, i, j - 1);
        assert(marks[j - 1] <= marks[j]);
    }
}

impl LineMaker {
    /// What holds while the text run at item `i` is laid out, once its
    /// characters before `p` are placed: its fragments begin at `a`.
    pub open spec fn text_inv(
        &self,
        t: TextRun,
        i: int,
        items: Seq<InlineItem>,
        a: int,
        p: int,
        starts: Seq<int>,
    ) -> bool {
        let len = t.advances@.len() as int;
        &&& self.wf_state()
        &&& items_ok(items)
        &&& 0 <= i < items.len()
        &&& items[i] == InlineItem::Text(t)
        &&& advances_ok(t.advances@)
        &&& adv_sum(t.advances@, 0, len) <= MAX_TOTAL
        &&& font_ok(t.font)
        &&& 0 <= p <= len
        &&& self.cur_width + self.pending_total() + self.open_right + adv_sum(t.advances@, p, len)
            + extent_from(items, i + 1) <= MAX_TOTAL
        &&& extent_from(items, i + 1) >= 0
        &&& self.end + (len - p) + units_from(items, i + 1) <= MAX_UNITS
        &&& self.lines@.len() <= self.start
        &&& self.shrink() ==> self.lines@.len() == 0
        &&& marks_ok(items, self.new_boxes@, starts, i)
        &&& self.item_starts@ == starts
        &&& a == starts[i]
        &&& text_pieces(self.new_boxes@, i, a, self.end as int, p)
        &&& p == len ==> (self.end > 0 ==> self.start < self.end)
    }

    pub open spec fn open_count(&self) -> int {
        if self.start < self.end {
            1
        } else {
            0
        }
    }

    /// Places characters `p..p + c`, `w` wide, of the run at item `i`.
    #[verifier::rlimit(50)]
    fn place_text_piece(
        &mut self,
        t: &TextRun,
        i: usize,
        p: usize,
        c: usize,
        w: i64,
        above: i64,
        under: i64,
        Ghost(items): Ghost<Seq<InlineItem>>,
        Ghost(a): Ghost<int>,
    )
        requires
            old(self).text_inv(*t, i as int, items, a, p as int, old(self).item_starts@),
            0 < c,
            p + c <= t.advances@.len(),
            w == adv_sum(t.advances@, p as int, p + c),
            above <= 2 * MAX_LEN,
            under <= 2 * MAX_LEN,
            !old(self).shrink() && (old(self).end > old(self).start || c != 1) ==> old(self).cur_width
                + old(self).pending_total() + w + old(self).open_right <= old(self).zone.width,
        ensures
            final(self).text_inv(*t, i as int, items, a, p + c, old(self).item_starts@),
            final(self).new_boxes@ == old(self).new_boxes@.push(
                old(self).carried(
                    FragmentSource::Text { item: i, start: p, end: (p + c) as usize },
                    text_base(w as int, t.font),
                    t.font.ascent,
                ),
            ),
            final(self).cur_width == old(self).cur_width + old(self).pending_total() + w,
            final(self).cur_metrics.above_baseline == max_spec(
                old(self).cur_metrics.above_baseline,
                above as int,
            ),
            final(self).cur_metrics.under_baseline == max_spec(
                old(self).cur_metrics.under_baseline,
                under as int,
            ),
            final(self).zone == old(self).zone,
            final(self).start == old(self).start,
            final(self).end == old(self).end + 1,
            final(self).start == old(self).start,
            final(self).lines@ == old(self).lines@,
            final(self).items@ == old(self).items@,
            final(self).floats.bands@ == old(self).floats.bands@,
            final(self).max_width == old(self).max_width,
            final(self).frames@ == old(self).frames@,
    {
        let len = t.advances.len();
        proof {
            assert(item_ok(items[i as int]));
            lemma_extent_nonneg(items, i + 1);
            lemma_adv_sum_within(t.advances@, p as int, p + c, p as int, len as int);
            crate::text::lemma_adv_sum_split(t.advances@, p as int, p + c, len as int);
            lemma_adv_sum_within(t.advances@, p as int, len as int, 0, len as int);
        }
        let height = t.font.ascent + t.font.descent;
        let base = Dimensions {
            content: Rect { x: 0, y: 0, width: w, height },
            padding: EdgeSizes::zero(),
            border: EdgeSizes::zero(),
            margin: EdgeSizes::zero(),
        };
        let src = FragmentSource::Text { item: i, start: p, end: p + c };
        let ghost before = self.new_boxes@;
        let ghost starts = self.item_starts@;
        self.place(src, base, t.font.ascent, above, under);
        proof {
            let f = self.new_boxes@.last();
            assert(self.new_boxes@ == before.push(f));
            lemma_text_pieces_push(before, f, i as int, a, p as int, p + c);
            lemma_marks_push(items, before, f, starts, i as int);
        }
    }
}


/// The piece of run `t` (item `i`, characters `p..q`) as `m` would place it.
pub open spec fn text_piece(m: LineMaker, t: TextRun, i: usize, p: usize, q: usize) -> Fragment {
    m.carried(
        FragmentSource::Text { item: i, start: p, end: q },
        text_base(adv_sum(t.advances@, p as int, q as int), t.font),
        t.font.ascent,
    )
}

/// The metrics of `m`'s open line once a piece of a run in font `f` is on it.
pub open spec fn grown_metrics(m: LineMaker, f: FontMetrics) -> LineMetrics {
    LineMetrics {
        above_baseline: max_spec(m.cur_metrics.above_baseline, text_above(f)),
        under_baseline: max_spec(m.cur_metrics.under_baseline, text_under(f)),
    }
}

/// `m`'s open line closed right after the piece `p..q` of run `t`.
pub open spec fn line_after_piece(m: LineMaker, t: TextRun, p: usize, q: usize) -> Line {
    Line {
        start: m.start,
        end: (m.end + 1) as usize,
        metrics: grown_metrics(m, t.font),
        width: (m.cur_width + m.pending_total() + adv_sum(t.advances@, p as int, q as int)) as i64,
        zone: m.zone,
    }
}

pub open spec fn line_reset(m: LineMaker) -> bool {
    m.cur_width == 0 && m.cur_metrics == (LineMetrics { above_baseline: 0, under_baseline: 0 })
}

/// The rest of run `t` from `p`, which fits, went whole onto the line.
pub open spec fn whole_post(o: LineMaker, n: LineMaker, t: TextRun, i: usize, p: usize, q: usize) -> bool {
    &&& q == t.advances@.len()
    &&& n.new_boxes@ == o.new_boxes@.push(text_piece(o, t, i, p, q))
    &&& n.lines@ == o.lines@
    &&& n.cur_width == o.cur_width + o.pending_total() + adv_sum(t.advances@, p as int, q as int)
    &&& n.cur_metrics == grown_metrics(o, t.font)
}

/// The rest of run `t` from `p` did not fit: the characters that fit went,
/// and the line closed after them; or none fit, and the line closed, or, on
/// an empty line, one character went alone.
pub open spec fn break_post(o: LineMaker, n: LineMaker, t: TextRun, i: usize, p: usize, q: usize) -> bool {
    let adv = t.advances@;
    let len = adv.len() as int;
    let room = o.room();
    if adv_sum(adv, p as int, p + 1) <= room {
        &&& p < q < len
        &&& adv_sum(adv, p as int, q as int) <= room
        &&& adv_sum(adv, p as int, q + 1) > room
        &&& n.new_boxes@ == o.new_boxes@.push(text_piece(o, t, i, p, q))
        &&& n.lines@ == o.lines@.push(line_after_piece(o, t, p, q))
        &&& line_reset(n)
    } else if o.start < o.end {
        &&& q == p
        &&& n.new_boxes@ == o.new_boxes@
        &&& n.lines@ == o.lines@.push(o.open_line())
        &&& line_reset(n)
    } else {
        &&& q == p + 1
        &&& n.new_boxes@ == o.new_boxes@.push(text_piece(o, t, i, p, q))
        &&& q < len ==> n.lines@ == o.lines@.push(line_after_piece(o, t, p, q)) && line_reset(n)
        &&& q == len ==> n.lines@ == o.lines@ && n.cur_metrics == grown_metrics(o, t.font)
    }
}

impl LineMaker {
    /// Breaks the run at item `i` from character `p`, whose rest does not
    /// fit the open line.
    #[verifier::rlimit(100)]
    fn break_text(
        &mut self,
        t: &TextRun,
        i: usize,
        p: usize,
        Ghost(items): Ghost<Seq<InlineItem>>,
        Ghost(a): Ghost<int>,
    ) -> (q: usize)
        requires
            old(self).text_inv(*t, i as int, items, a, p as int, old(self).item_starts@),
            p < t.advances@.len(),
            !old(self).shrink(),
            adv_sum(t.advances@, p as int, t.advances@.len() as int) > old(self).room(),
        ensures
            final(self).text_inv(*t, i as int, items, a, q as int, old(self).item_starts@),
            break_post(*old(self), *final(self), *t, i, p, q),
            2 * (t.advances@.len() - q) + final(self).open_count() < 2 * (t.advances@.len()
                - p) + old(self).open_count(),
            final(self).items@ == old(self).items@,
            final(self).floats.bands@ == old(self).floats.bands@,
            final(self).max_width == old(self).max_width,
            final(self).frames@ == old(self).frames@,
    {
        let adv = &t.advances;
        let len = adv.len();
        let font = t.font;
        let gap = font.line_height - (font.ascent + font.descent);
        let half = if gap >= 0 {
            gap / 2
        } else {
            -((-gap) / 2)
        };
        let above = font.ascent + half;
        let under = half + font.descent;
        let room = self.zone.width - self.open_right - self.cur_width - (self.pend_padding
            + self.pend_border + self.pend_margin);
        proof {
            assert(above == text_above(font));
            assert(under == text_under(font));
            assert(room == self.room());
        }
        let (c, w) = max_fit(adv, p, len, room);
        proof {
            if c > 0 {
                lemma_adv_sum_within(adv@, p as int, p + 1, p as int, p + c);
            }
        }
        if c > 0 {
            self.place_text_piece(t, i, p, c, w, above, under, Ghost(items), Ghost(a));
            self.close_line();
            p + c
        } else if self.start < self.end {
            self.close_line();
            p
        } else {
            let w1 = measure(adv, p, p + 1);
            self.place_text_piece(t, i, p, 1, w1, above, under, Ghost(items), Ghost(a));
            if p + 1 < len {
                self.close_line();
            }
            p + 1
        }
    }

    /// One step of laying out a text run from character `p`: the rest goes
    /// whole where it fits; else the characters that fit go, and the line is
    /// closed; where none fits the line is closed, or, on an empty line, one
    /// character goes alone.
    #[verifier::rlimit(100)]
    fn text_step(
        &mut self,
        t: &TextRun,
        i: usize,
        p: usize,
        Ghost(items): Ghost<Seq<InlineItem>>,
        Ghost(a): Ghost<int>,
    ) -> (q: usize)
        requires
            old(self).text_inv(*t, i as int, items, a, p as int, old(self).item_starts@),
            p < t.advances@.len(),
        ensures
            final(self).text_inv(*t, i as int, items, a, q as int, old(self).item_starts@),
            if old(self).shrink() || adv_sum(t.advances@, p as int, t.advances@.len() as int)
                <= old(self).room() {
                whole_post(*old(self), *final(self), *t, i, p, q)
            } else {
                break_post(*old(self), *final(self), *t, i, p, q)
            },
            2 * (t.advances@.len() - q) + final(self).open_count() < 2 * (t.advances@.len()
                - p) + old(self).open_count(),
            final(self).items@ == old(self).items@,
            final(self).floats.bands@ == old(self).floats.bands@,
            final(self).max_width == old(self).max_width,
            final(self).frames@ == old(self).frames@,
    {
        let adv = &t.advances;
        let len = adv.len();
        let font = t.font;
        let gap = font.line_height - (font.ascent + font.descent);
        let half = if gap >= 0 {
            gap / 2
        } else {
            -((-gap) / 2)
        };
        let above = font.ascent + half;
        let under = half + font.descent;
        proof {
            lemma_adv_sum_within(adv@, p as int, len as int, 0, len as int);
        }
        let full = measure(adv, p, len);
        let room = self.zone.width - self.open_right - self.cur_width - (self.pend_padding
            + self.pend_border + self.pend_margin);
        proof {
            assert(above == text_above(font));
            assert(under == text_under(font));
            assert(room == self.room());
        }
        if self.max_width < 0 || full <= room {
            self.place_text_piece(t, i, p, len - p, full, above, under, Ghost(items), Ghost(a));
            len
        } else {
            self.break_text(t, i, p, Ghost(items), Ghost(a))
        }
    }

    /// Lays out the text run at item `i`.
    #[verifier::rlimit(100)]
    fn run_on_text_node(&mut self, t: &TextRun, i: usize, Ghost(items): Ghost<Seq<InlineItem>>)
        requires
            old(self).run_inv(items, i as int),
            i < items.len(),
            items[i as int] == InlineItem::Text(*t),
        ensures
            final(self).run_inv(items, i + 1),
            final(self).new_boxes@.len() >= old(self).new_boxes@.len(),
            forall|k: int|
                0 <= k < old(self).new_boxes@.len() ==> #[trigger] final(self).new_boxes@[k]
                    == old(self).new_boxes@[k],
            forall|k: int|
                old(self).new_boxes@.len() <= k < final(self).new_boxes@.len() ==> piece_shape(
                    #[trigger] final(self).new_boxes@[k],
                    *t,
                ),
            final(self).lines@.len() >= old(self).lines@.len(),
            forall|k: int|
                0 <= k < old(self).lines@.len() ==> #[trigger] final(self).lines@[k]
                    == old(self).lines@[k],
            final(self).items@ == old(self).items@,
            final(self).floats.bands@ == old(self).floats.bands@,
            final(self).max_width == old(self).max_width,
            final(self).frames@ == old(self).frames@,
    {
        let len = t.advances.len();
        proof {
            assert(item_ok(items[i as int]));
            lemma_extent_nonneg(items, i + 1);
            lemma_adv_sum_within(t.advances@, 0, len as int, 0, len as int);
        }
        let ghost a = self.end as int;
        let ghost starts = self.item_starts@;
        let mut p: usize = 0;
        while p < len
            invariant
                self.text_inv(*t, i as int, items, a, p as int, starts),
                len == t.advances@.len(),
                a == old(self).new_boxes@.len(),
                self.new_boxes@.len() >= a,
                forall|k: int| 0 <= k < a ==> #[trigger] self.new_boxes@[k] == old(self).new_boxes@[k],
                forall|k: int| a <= k < self.new_boxes@.len() ==> piece_shape(#[trigger] self.new_boxes@[k], *t),
                self.lines@.len() >= old(self).lines@.len(),
                forall|k: int|
                    0 <= k < old(self).lines@.len() ==> #[trigger] self.lines@[k] == old(self).lines@[k],
                self.items@ == old(self).items@,
                self.max_width == old(self).max_width,
                self.frames@ == old(self).frames@,
                self.floats.bands@ == old(self).floats.bands@,
            decreases 2 * (len - p) + self.open_count(),
        {
            let ghost pb = self.new_boxes@;
            let ghost pl = self.lines@;
            let ghost p0 = p as int;
            p = self.text_step(t, i, p, Ghost(items), Ghost(a));
            proof {
                assert forall|k: int| 0 <= k < pb.len() implies #[trigger] self.new_boxes@[k] == pb[k] by {}
                assert forall|k: int| 0 <= k < pl.len() implies #[trigger] self.lines@[k] == pl[k] by {
                    if self.lines@.len() > pl.len() && self.lines@.drop_last() == pl {
                        assert(self.lines@.drop_last()[k] == self.lines@[k]);
                    }
                }
                if self.new_boxes@.len() > pb.len() {
                    lemma_adv_sum_within(t.advances@, p0, p as int, 0, t.advances@.len() as int);
                    assert(piece_shape(self.new_boxes@.last(), *t));
                }
            }
        }
        proof {
            lemma_text_shapes(items, old(self).new_boxes@, self.new_boxes@, starts, i as int, *t);
        }
        self.item_starts = Ghost(self.item_starts@.push(self.end as int));
        proof {
            let ns = self.item_starts@;
            let nb = self.new_boxes@;
            assert(ns.drop_last() == starts);
            assert forall|j: int| 0 <= j < i + 1 implies #[trigger] ns[j] <= ns[j + 1] by {
                if j < i {
                    assert(starts[j] <= starts[j + 1]);
                }
            }
            assert forall|j: int| 0 <= j < i + 1 implies forall|k: int|
                #![trigger nb[k]]
                #[trigger] ns[j] <= k < ns[j + 1] ==> source_item(nb[k]) == j by {
                if j < i {
                    assert(ns[j] == starts[j] && ns[j + 1] == starts[j + 1]);
                }
            }
            assert forall|j: int| 0 <= j < i + 1 && (#[trigger] items[j]) is Text implies text_pieces(
                nb,
                j,
                ns[j],
                ns[j + 1],
                text_len(items[j]),
            ) by {
                if j < i {
                    assert(ns[j] == starts[j] && ns[j + 1] == starts[j + 1]);
                }
            }
        }
    }
}


/// The marks speak of fragments' sources alone.
pub proof fn lemma_marks_sources(
    items: Seq<InlineItem>,
    f1: Seq<Fragment>,
    f2: Seq<Fragment>,
    marks: Seq<int>,
    i: int,
)
    requires
        marks_ok(items, f1, marks, i),
        f1.len() == f2.len(),
        forall|k: int| 0 <= k < f1.len() ==> (#[trigger] f2[k]).source == f1[k].source,
    ensures
        marks_ok(items, f2, marks, i),
{
    assert forall|j: int| 0 <= j < i implies forall|k: int|
        #![trigger f2[k]]
        #[trigger] marks[j] <= k < marks[j + 1] ==> source_item(f2[k]) == j by {
        assert forall|k: int| #[trigger] marks[j] <= k < marks[j + 1] implies source_item(f2[k])
            == j by {
            lemma_marks_bound(items, f1, marks, i, j);
            assert(f2[k].source == f1[k].source);
        }
    }
    assert forall|j: int| 0 <= j < i && (#[trigger] items[j]) is Text implies text_pieces(
        f2,
        j,
        marks[j],
        marks[j + 1],
        text_len(items[j]),
    ) by {
        lemma_marks_bound(items, f1, marks, i, j);
        assert(text_pieces(f1, j, marks[j], marks[j + 1], text_len(items[j])));
        assert forall|k: int| marks[j] <= k < marks[j + 1] implies (#[trigger] f2[k]).source
            == f1[k].source by {
        }
    }
}

/// An item that is not text, and made no fragment or one fragment of its
/// own, moves the marks on.
pub proof fn lemma_marks_next(
    items: Seq<InlineItem>,
    frags: Seq<Fragment>,
    marks: Seq<int>,
    i: int,
    made: int,
)
    requires
        marks_ok(items, frags, marks, i),
        0 <= i < items.len(),
        !(items[i] is Text),
        marks[i] + made == frags.len(),
        0 <= made <= 1,
        made == 1 ==> source_item(frags[frags.len() - 1]) == i,
    ensures
        marks_ok(items, frags, marks.push(frags.len() as int), i + 1),
{
    let nm = marks.push(frags.len() as int);
    assert(nm[i] == marks[i]);
    assert forall|j: int| 0 <= j < i + 1 implies #[trigger] nm[j] <= nm[j + 1] by {
        if j < i {
            assert(marks[j] <= marks[j + 1]);
        }
    }
    assert forall|j: int| 0 <= j < i + 1 implies forall|k: int|
        #![trigger frags[k]]
        #[trigger] nm[j] <= k < nm[j + 1] ==> source_item(frags[k]) == j by {
        if j < i {
            assert(nm[j] == marks[j] && nm[j + 1] == marks[j + 1]);
        }
    }
    assert forall|j: int| 0 <= j < i + 1 && (#[trigger] items[j]) is Text implies text_pieces(
        frags,
        j,
        nm[j],
        nm[j + 1],
        text_len(items[j]),
    ) by {
        assert(nm[j] == marks[j] && nm[j + 1] == marks[j + 1]);
    }
}

impl LineMaker {
    /// Lays out the atomic box at item `i` (margin box `d`): where it does
    /// not fit what is left of a line that holds something, that line is
    /// closed first. The line's ascent grows to at least its height.
    #[verifier::rlimit(100)]
    fn run_on_inline_block_node(
        &mut self,
        d: Dimensions,
        ascent: i64,
        i: usize,
        Ghost(items): Ghost<Seq<InlineItem>>,
    )
        requires
            old(self).run_inv(items, i as int),
            i < items.len(),
            items[i as int] == InlineItem::Atomic(d, ascent),
        ensures
            final(self).run_inv(items, i + 1),
            final(self).items@ == old(self).items@,
            final(self).floats.bands@ == old(self).floats.bands@,
            final(self).max_width == old(self).max_width,
            final(self).frames@ == old(self).frames@,
            ({
                let flushed = old(self).breaks_before(d.margin_box_width_spec());
                &&& flushed ==> final(self).lines@ == old(self).lines@.push(old(self).open_line())
                &&& !flushed ==> final(self).lines@ == old(self).lines@
                &&& final(self).new_boxes@ == old(self).new_boxes@.push(
                    old(self).carried(FragmentSource::Atomic { item: i }, d, ascent),
                )
                &&& final(self).cur_width == (if flushed {
                    0
                } else {
                    old(self).cur_width as int
                }) + old(self).pending_total() + d.margin_box_width_spec()
                &&& final(self).cur_metrics.above_baseline == max_spec(
                    if flushed {
                        0i64
                    } else {
                        old(self).cur_metrics.above_baseline
                    },
                    d.margin_box_height_spec(),
                )
                &&& final(self).cur_metrics.under_baseline == if flushed {
                    0i64
                } else {
                    old(self).cur_metrics.under_baseline
                }
            }),
    {
        proof {
            assert(item_ok(items[i as int]));
            lemma_extent_nonneg(items, i + 1);
        }
        let w = d.margin_box_width();
        let h = d.margin_box_height();
        let room = self.zone.width - self.open_right - self.cur_width - (self.pend_padding
            + self.pend_border + self.pend_margin);
        if self.max_width >= 0 && w > room && self.start < self.end {
            self.close_line();
        }
        let ghost before = self.new_boxes@;
        let ghost starts = self.item_starts@;
        self.place(FragmentSource::Atomic { item: i }, d, ascent, h, 0);
        proof {
            let f = self.new_boxes@.last();
            assert(self.new_boxes@ == before.push(f));
            lemma_marks_push(items, before, f, starts, i as int);
            lemma_marks_next(items, self.new_boxes@, starts, i as int, 1);
        }
        self.item_starts = Ghost(self.item_starts@.push(self.end as int));
        proof {
            let nb = self.new_boxes@;
            assert forall|k: int| 0 <= k < before.len() implies grown_from(#[trigger] nb[k], before[k]) by {
                assert(nb[k] == before[k]);
            }
            lemma_shapes_frame(items, before, nb, starts, i as int);
            lemma_shapes_next(items, nb, starts, self.end as int, i as int);
        }
    }

    /// Enters the inline box at item `i`.
    fn run_on_open(&mut self, d: Dimensions, i: usize, Ghost(items): Ghost<Seq<InlineItem>>)
        requires
            old(self).run_inv(items, i as int),
            i < items.len(),
            items[i as int] == InlineItem::Open(d),
        ensures
            final(self).run_inv(items, i + 1),
            final(self).frames@ == old(self).frames@.push(Frame { dims: d, first: old(self).end }),
            final(self).pend_padding == old(self).pend_padding + d.padding.left,
            final(self).pend_border == old(self).pend_border + d.border.left,
            final(self).pend_margin == old(self).pend_margin + d.margin.left,
            final(self).open_right == old(self).open_right + d.right_offset_spec(),
            final(self).new_boxes@ == old(self).new_boxes@,
            final(self).lines@ == old(self).lines@,
            final(self).cur_width == old(self).cur_width,
            final(self).cur_metrics == old(self).cur_metrics,
            final(self).items@ == old(self).items@,
            final(self).floats.bands@ == old(self).floats.bands@,
            final(self).max_width == old(self).max_width,
    {
        proof {
            assert(item_ok(items[i as int]));
            lemma_extent_nonneg(items, i + 1);
        }
        self.open_inline(d);
        proof {
            lemma_marks_next(items, self.new_boxes@, self.item_starts@, i as int, 0);
        }
        let ghost starts = self.item_starts@;
        self.item_starts = Ghost(self.item_starts@.push(self.end as int));
        proof {
            lemma_shapes_next(items, self.new_boxes@, starts, self.end as int, i as int);
        }
    }

    /// Leaves the innermost open inline box at item `i`; a close with no box
    /// open is skipped.
    #[verifier::rlimit(80)]
    fn run_on_close(&mut self, i: usize, Ghost(items): Ghost<Seq<InlineItem>>)
        requires
            old(self).run_inv(items, i as int),
            i < items.len(),
            items[i as int] == InlineItem::Close,
        ensures
            final(self).run_inv(items, i + 1),
            final(self).lines@ == old(self).lines@,
            final(self).cur_metrics == old(self).cur_metrics,
            old(self).frames@.len() == 0 ==> final(self).new_boxes@ == old(self).new_boxes@
                && final(self).cur_width == old(self).cur_width && final(self).frames@
                == old(self).frames@,
            old(self).frames@.len() > 0 ==> final(self).frames@ == old(self).frames@.drop_last()
                && final(self).open_right == old(self).open_right
                - old(self).frames@.last().dims.right_offset_spec(),
            ({
                let f = old(self).frames@.last();
                let n = old(self).end as int;
                &&& old(self).frames@.len() > 0 && f.first < n ==> final(self).new_boxes@
                    == old(self).new_boxes@.update(n - 1, with_right(old(self).new_boxes@[n - 1], f.dims))
                    && final(self).cur_width == old(self).cur_width + f.dims.right_offset_spec()
                &&& old(self).frames@.len() > 0 && f.first >= n ==> final(self).new_boxes@
                    == old(self).new_boxes@ && final(self).cur_width == old(self).cur_width
                    && final(self).pend_padding == old(self).pend_padding + f.dims.padding.right
                    && final(self).pend_border == old(self).pend_border + f.dims.border.right
                    && final(self).pend_margin == old(self).pend_margin + f.dims.margin.right
            }),
            final(self).items@ == old(self).items@,
            final(self).floats.bands@ == old(self).floats.bands@,
            final(self).max_width == old(self).max_width,
    {
        let ghost pre = *self;
        if self.frames.len() > 0 {
            let ghost before = self.new_boxes@;
            self.close_inline();
            proof {
                let f = pre.frames@.last();
                assert(pre.frames@[pre.frames@.len() - 1] == f);
                assert forall|k: int| 0 <= k < pre.end implies grown_from(
                    #[trigger] self.new_boxes@[k],
                    before[k],
                ) by {
                    assert(frag_ok(before[k]));
                }
                lemma_shapes_frame(items, before, self.new_boxes@, self.item_starts@, i as int);
                lemma_marks_sources(items, before, self.new_boxes@, self.item_starts@, i as int);
            }
        }
        proof {
            lemma_marks_next(items, self.new_boxes@, self.item_starts@, i as int, 0);
        }
        let ghost starts = self.item_starts@;
        self.item_starts = Ghost(self.item_starts@.push(self.end as int));
        proof {
            lemma_shapes_next(items, self.new_boxes@, starts, self.end as int, i as int);
        }
    }

    /// Skips the item `i`, which inline layout does not handle.
    fn skip_item(&mut self, i: usize, Ghost(items): Ghost<Seq<InlineItem>>)
        requires
            old(self).run_inv(items, i as int),
            i < items.len(),
            items[i as int] == InlineItem::Unsupported,
        ensures
            final(self).run_inv(items, i + 1),
            final(self).new_boxes@ == old(self).new_boxes@,
            final(self).lines@ == old(self).lines@,
            final(self).cur_width == old(self).cur_width,
            final(self).cur_height == old(self).cur_height,
            final(self).cur_metrics == old(self).cur_metrics,
            final(self).frames@ == old(self).frames@,
            final(self).zone == old(self).zone,
            final(self).pend_padding == old(self).pend_padding,
            final(self).pend_border == old(self).pend_border,
            final(self).pend_margin == old(self).pend_margin,
            final(self).items@ == old(self).items@,
            final(self).floats.bands@ == old(self).floats.bands@,
            final(self).max_width == old(self).max_width,
    {
        proof {
            lemma_marks_next(items, self.new_boxes@, self.item_starts@, i as int, 0);
        }
        let ghost starts = self.item_starts@;
        self.item_starts = Ghost(self.item_starts@.push(self.end as int));
        proof {
            lemma_shapes_next(items, self.new_boxes@, starts, self.end as int, i as int);
        }
    }

    /// Lays out items `0..` of the content: it breaks them into lines no
    /// wider than the band free of floats, or, where `max_width` is
    /// negative, measures them on a single line. The last line stays open
    /// (see `end_of_lines`).
    pub fn run(&mut self, max_width: i64)
        requires
            old(self).fresh(),
            old(self).floats.wf(),
            items_ok(old(self).items@),
            max_width <= MAX_LEN,
        ensures
            final(self).run_inv(old(self).items@, old(self).items@.len() as int),
            final(self).items@ == old(self).items@,
            final(self).max_width == max_width,
            final(self).floats.bands@ == old(self).floats.bands@,
            max_width >= 0 ==> forall|k: int|
                0 <= k < final(self).lines@.len() ==> #[trigger] final(self).lines@[k].width
                    <= max_width || (final(self).lines@[k].end - final(self).lines@[k].start == 1
                    && unit_source(final(self).new_boxes@[final(self).lines@[k].start as int].source)),
            max_width < 0 ==> final(self).lines@.len() == 0,
            marks_ok(
                old(self).items@,
                final(self).new_boxes@,
                final(self).item_starts@,
                old(self).items@.len() as int,
            ),
            final(self).item_starts@.last() == final(self).new_boxes@.len(),
            shapes_ok(
                old(self).items@,
                final(self).new_boxes@,
                final(self).item_starts@,
                old(self).items@.len() as int,
            ),
            max_width >= 0 ==> zones_ok(
                final(self).lines@,
                old(self).floats.bands@,
                max_width as int,
            ),
            final(self).cur_height == line_top(final(self).lines@, final(self).lines@.len() as int),
    {
        self.max_width = max_width;
        if max_width < 0 {
            self.zone = Zone { x: 0, width: -1, ceiling: 0 };
        } else {
            self.zone = self.floats.available_area(max_width, self.cur_height);
        }
        self.item_starts = Ghost(Seq::empty().push(0int));
        let mut items: Vec<InlineItem> = Vec::new();
        std::mem::swap(&mut items, &mut self.items);
        let ghost all = items@;
        proof {
            lemma_extent_nonneg(all, 0);
            reveal(zones_ok);
        }
        let n = items.len();
        let mut i: usize = 0;
        while i < n
            invariant
                self.run_inv(all, i as int),
                items@ == all,
                n == all.len(),
                self.max_width == max_width,
                self.floats.bands@ == old(self).floats.bands@,
            decreases n - i,
        {
            match &items[i] {
                InlineItem::Text(t) => self.run_on_text_node(t, i, Ghost(all)),
                InlineItem::Atomic(d, a) => self.run_on_inline_block_node(*d, *a, i, Ghost(all)),
                InlineItem::Open(d) => self.run_on_open(*d, i, Ghost(all)),
                InlineItem::Close => self.run_on_close(i, Ghost(all)),
                InlineItem::Unsupported => self.skip_item(i, Ghost(all)),
            }
            i = i + 1;
        }
        std::mem::swap(&mut items, &mut self.items);
    }
}


#[derive(Clone, Copy, Debug, PartialEq, Eq, Structural)]
pub enum TextAlign {
    Left,
    Center,
    Right,
}

/// Where a line `line_width` wide starts within its band, `zone_width` wide
/// (an unconstrained band is as wide as the line).
pub open spec fn align_offset(align: TextAlign, zone_width: int, line_width: int) -> int {
    let avail = if zone_width < 0 {
        line_width
    } else {
        zone_width
    };
    match align {
        TextAlign::Left => 0,
        TextAlign::Center => half_of(avail - line_width),
        TextAlign::Right => avail - line_width,
    }
}

/// The height at which line `li` starts: the heights of the lines above it.
pub open spec fn line_top(lines: Seq<Line>, li: int) -> int
    decreases li,
{
    if li <= 0 {
        0
    } else {
        line_top(lines, li - 1) + lines[li - 1].metrics.height_spec()
    }
}

/// The left edge of the content of fragment `k` on line `l`.
pub open spec fn content_x(frags: Seq<Fragment>, l: Line, align: TextAlign, k: int) -> int {
    l.zone.x + align_offset(align, l.zone.width as int, l.width as int) + frag_sum(
        frags,
        l.start as int,
        k,
    ) + frags[k].dims.left_offset_spec()
}

/// Fragment `f` with its content moved to `(x, y)`.
pub open spec fn moved(f: Fragment, x: int, y: int) -> Fragment {
    Fragment { dims: Dimensions { content: Rect { x: x as i64, y: y as i64, ..f.dims.content }, ..f.dims }, ..f }
}

/// The fragment `k` on line `li`, placed: after what comes before it on the
/// line, and with its ascent on the line's baseline.
pub open spec fn placed(frags: Seq<Fragment>, lines: Seq<Line>, align: TextAlign, li: int, k: int) -> Fragment {
    moved(
        frags[k],
        content_x(frags, lines[li], align, k),
        line_top(lines, li) + lines[li].metrics.above_baseline - frags[k].ascent,
    )
}

/// A line added below leaves the tops of the lines above it.
pub proof fn lemma_line_top_push(lines: Seq<Line>, l: Line, k: int)
    requires
        0 <= k <= lines.len(),
    ensures
        line_top(lines.push(l), k) == line_top(lines, k),
    decreases k,
{
    if k > 0 {
        lemma_line_top_push(lines, l, k - 1);
        assert(lines.push(l)[k - 1] == lines[k - 1]);
    }
}

pub proof fn lemma_line_top_bound(lines: Seq<Line>, li: int)
    requires
        0 <= li <= lines.len(),
        forall|k: int| 0 <= k < lines.len() ==> (#[trigger] lines[k]).metrics.wf(),
    ensures
        0 <= line_top(lines, li) <= li * MAX_LINE_HEIGHT,
    decreases li,
{
    if li > 0 {
        lemma_line_top_bound(lines, li - 1);
        assert(lines[li - 1].metrics.wf());
    }
}

/// Earlier lines hold earlier fragments.
pub proof fn lemma_line_order(
    lines: Seq<Line>,
    frags: Seq<Fragment>,
    start: int,
    max_width: int,
    a: int,
    b: int,
)
    requires
        lines_ok(lines, frags, start, max_width),
        0 <= a < b < lines.len(),
    ensures
        lines[a].end <= lines[b].start,
    decreases b - a,
{
    assert(lines[b - 1].end == lines[b].start);
    if a < b - 1 {
        lemma_line_order(lines, frags, start, max_width, a, b - 1);
        lemma_line_bounds(lines, frags, start, max_width, b - 1);
    }
}

/// Every part of a line is no wider than the line.
pub proof fn lemma_frag_sum_prefix(s: Seq<Fragment>, lo: int, k: int, hi: int)
    requires
        lo <= k <= hi <= s.len(),
        0 <= lo,
        forall|j: int| lo <= j < hi ==> frag_ok(#[trigger] s[j]),
    ensures
        0 <= frag_sum(s, lo, k) <= frag_sum(s, lo, hi),
    decreases hi - k,
{
    if k < hi {
        lemma_frag_sum_prefix(s, lo, k, hi - 1);
        assert(frag_ok(s[hi - 1]));
    } else {
        lemma_frag_sum_nonneg(s, lo, k);
    }
}

proof fn lemma_frag_sum_nonneg(s: Seq<Fragment>, lo: int, hi: int)
    requires
        0 <= lo,
        hi <= s.len(),
        forall|j: int| lo <= j < hi ==> frag_ok(#[trigger] s[j]),
    ensures
        0 <= frag_sum(s, lo, hi),
    decreases hi - lo,
{
    if hi > lo {
        lemma_frag_sum_nonneg(s, lo, hi - 1);
        assert(frag_ok(s[hi - 1]));
    }
}


impl LineMaker {
    /// Places the fragments of line `li`, which starts at height `top`.
    #[verifier::rlimit(60)]
    fn assign_line(
        &mut self,
        li: usize,
        top: i64,
        align: TextAlign,
        Ghost(orig): Ghost<Seq<Fragment>>,
        Ghost(start): Ghost<int>,
    )
        requires
            old(self).new_boxes@.len() == orig.len(),
            lines_ok(old(self).lines@, orig, start, old(self).max_width as int),
            start <= orig.len(),
            forall|k: int| 0 <= k < orig.len() ==> frag_ok(#[trigger] orig[k]),
            li < old(self).lines@.len(),
            old(self).lines@.len() <= MAX_UNITS + 1,
            top == line_top(old(self).lines@, li as int),
            forall|li2: int|
                0 <= li2 < li ==> forall|k: int|
                    #![trigger old(self).new_boxes@[k]]
                    (#[trigger] old(self).lines@[li2]).start <= k < old(self).lines@[li2].end
                        ==> old(self).new_boxes@[k] == placed(orig, old(self).lines@, align, li2, k),
            forall|k: int|
                old(self).lines@[li as int].start <= k < orig.len() ==> #[trigger] old(self).new_boxes@[k]
                    == orig[k],
        ensures
            final(self).new_boxes@.len() == orig.len(),
            final(self).lines@ == old(self).lines@,
            final(self).cur_height == old(self).cur_height,
            final(self).max_width == old(self).max_width,
            forall|li2: int|
                0 <= li2 <= li ==> forall|k: int|
                    #![trigger final(self).new_boxes@[k]]
                    (#[trigger] final(self).lines@[li2]).start <= k < final(self).lines@[li2].end
                        ==> final(self).new_boxes@[k] == placed(orig, final(self).lines@, align, li2, k),
            forall|k: int|
                final(self).lines@[li as int].end <= k < orig.len() ==> #[trigger] final(self).new_boxes@[k]
                    == orig[k],
    {
        let ghost lines = self.lines@;
        let l = self.lines[li];
        proof {
            lemma_line_bounds(lines, orig, start, self.max_width as int, li as int);
            lemma_line_top_bound(lines, li as int);
            lemma_frag_sum_prefix(orig, l.start as int, l.end as int, l.end as int);
            assert forall|li2: int| 0 <= li2 < li implies (#[trigger] lines[li2]).end <= l.start by {
                lemma_line_order(lines, orig, start, self.max_width as int, li2, li as int);
            }
        }
        let avail = if l.zone.width < 0 {
            l.width
        } else {
            l.zone.width
        };
        let offset = match align {
            TextAlign::Left => 0,
            TextAlign::Center => {
                let d = avail - l.width;
                if d >= 0 {
                    d / 2
                } else {
                    -((-d) / 2)
                }
            },
            TextAlign::Right => avail - l.width,
        };
        let x0 = l.zone.x + offset;
        let mut k: usize = l.start;
        let mut cw: i64 = 0;
        while k < l.end
            invariant
                l == lines[li as int],
                self.lines@ == lines,
                self.cur_height == old(self).cur_height,
                self.max_width == old(self).max_width,
                lines_ok(lines, orig, start, self.max_width as int),
                forall|j: int| 0 <= j < orig.len() ==> frag_ok(#[trigger] orig[j]),
                0 <= l.start <= k <= l.end <= start <= orig.len(),
                self.new_boxes@.len() == orig.len(),
                cw == frag_sum(orig, l.start as int, k as int),
                0 <= l.width <= MAX_TOTAL,
                l.width == frag_sum(orig, l.start as int, l.end as int),
                x0 == l.zone.x + align_offset(align, l.zone.width as int, l.width as int),
                0 <= top <= (MAX_UNITS + 1) * MAX_LINE_HEIGHT,
                top == line_top(lines, li as int),
                l.metrics.wf(),
                -4 * MAX_TOTAL <= x0 <= 4 * MAX_TOTAL,
                forall|li2: int| 0 <= li2 < li ==> (#[trigger] lines[li2]).end <= l.start,
                forall|li2: int|
                    0 <= li2 < li ==> forall|kk: int|
                        #![trigger self.new_boxes@[kk]]
                        (#[trigger] lines[li2]).start <= kk < lines[li2].end ==> self.new_boxes@[kk]
                            == placed(orig, lines, align, li2, kk),
                forall|kk: int|
                    l.start <= kk < k ==> #[trigger] self.new_boxes@[kk] == placed(
                        orig,
                        lines,
                        align,
                        li as int,
                        kk,
                    ),
                forall|kk: int| k <= kk < orig.len() ==> #[trigger] self.new_boxes@[kk] == orig[kk],
            decreases l.end - k,
        {
            proof {
                lemma_frag_sum_prefix(orig, l.start as int, k + 1, l.end as int);
                assert(frag_ok(orig[k as int]));
            }
            let mut b = self.new_boxes[k];
            let w = b.dims.content.width + b.dims.padding.left + b.dims.border.left
                + b.dims.margin.left + b.dims.padding.right + b.dims.border.right
                + b.dims.margin.right;
            b.dims.content.x = x0 + cw + b.dims.padding.left + b.dims.border.left
                + b.dims.margin.left;
            b.dims.content.y = top + (l.metrics.above_baseline - b.ascent);
            proof {
                assert(b == placed(orig, lines, align, li as int, k as int));
            }
            self.new_boxes.set(k, b);
            cw = cw + w;
            k = k + 1;
        }
    }
}


impl LineMaker {
    /// Gives every fragment of the closed lines its final position: lines
    /// stack from height zero; within a line, fragments follow each other
    /// from the start of the band, shifted by `align`, and each one's ascent
    /// sits on the line's baseline.
    pub fn assign_position(&mut self, align: TextAlign)
        requires
            old(self).wf_state(),
        ensures
            final(self).new_boxes@.len() == old(self).new_boxes@.len(),
            final(self).lines@ == old(self).lines@,
            final(self).cur_height == line_top(old(self).lines@, old(self).lines@.len() as int),
            forall|li: int|
                0 <= li < final(self).lines@.len() ==> forall|k: int|
                    #![trigger final(self).new_boxes@[k]]
                    (#[trigger] final(self).lines@[li]).start <= k < final(self).lines@[li].end
                        ==> final(self).new_boxes@[k] == placed(
                        old(self).new_boxes@,
                        old(self).lines@,
                        align,
                        li,
                        k,
                    ),
            forall|k: int|
                old(self).start <= k < old(self).end ==> #[trigger] final(self).new_boxes@[k]
                    == old(self).new_boxes@[k],
            forall|li: int|
                0 <= li < final(self).lines@.len() ==> forall|k: int|
                    #![trigger final(self).new_boxes@[k]]
                    (#[trigger] final(self).lines@[li]).start <= k < final(self).lines@[li].end
                        ==> final(self).new_boxes@[k].dims.content.y
                        + final(self).new_boxes@[k].ascent == line_top(final(self).lines@, li)
                        + final(self).lines@[li].metrics.above_baseline,
    {
        let ghost orig = self.new_boxes@;
        let ghost lines = self.lines@;
        let ghost start = self.start as int;
        let n = self.lines.len();
        let mut li: usize = 0;
        let mut top: i64 = 0;
        while li < n
            invariant
                self.lines@ == lines,
                n == lines.len(),
                n <= MAX_UNITS + 1,
                self.max_width == old(self).max_width,
                self.cur_height == old(self).cur_height,
                lines_ok(lines, orig, start, self.max_width as int),
                start <= orig.len(),
                start == old(self).start,
                orig.len() == old(self).end,
                forall|k: int| 0 <= k < orig.len() ==> frag_ok(#[trigger] orig[k]),
                li <= n,
                top == line_top(lines, li as int),
                self.new_boxes@.len() == orig.len(),
                forall|li2: int|
                    0 <= li2 < li ==> forall|k: int|
                        #![trigger self.new_boxes@[k]]
                        (#[trigger] lines[li2]).start <= k < lines[li2].end ==> self.new_boxes@[k]
                            == placed(orig, lines, align, li2, k),
                li < n ==> forall|k: int|
                    lines[li as int].start <= k < orig.len() ==> #[trigger] self.new_boxes@[k]
                        == orig[k],
                li == n ==> forall|k: int|
                    start <= k < orig.len() ==> #[trigger] self.new_boxes@[k] == orig[k],
            decreases n - li,
        {
            proof {
                lemma_line_top_bound(lines, li as int);
                lemma_line_top_bound(lines, li + 1);
            }
            self.assign_line(li, top, align, Ghost(orig), Ghost(start));
            let h = self.lines[li].metrics.calculate_line_height();
            top = top + h;
            li = li + 1;
            proof {
                if li < n {
                    assert(lines[li - 1].end == lines[li as int].start);
                } else {
                    assert(lines.last().end == start);
                }
            }
        }
        proof {
            let nb = self.new_boxes@;
            assert forall|li: int| 0 <= li < lines.len() implies forall|k: int|
                #![trigger nb[k]]
                (#[trigger] lines[li]).start <= k < lines[li].end ==> nb[k].dims.content.y
                    + nb[k].ascent == line_top(lines, li) + lines[li].metrics.above_baseline by {
                lemma_line_top_bound(lines, li);
                assert forall|k: int| #![trigger nb[k]] (#[trigger] lines[li]).start <= k < lines[li].end implies nb[k].dims.content.y
                    + nb[k].ascent == line_top(lines, li) + lines[li].metrics.above_baseline by {
                    lemma_line_bounds(lines, orig, start, self.max_width as int, li);
                    assert(frag_ok(orig[k]));
                    assert(lines[li].metrics.wf());
                }
            }
        }
    }
}

} // verus!
