use naglfar::floats::{FloatBand, Floats, Zone};
use naglfar::geometry::{Dimensions, EdgeSizes, Rect, AU_PER_PX};
use naglfar::inline::{
    FontMetrics, FragmentSource, InlineItem, LineMaker, TextAlign, TextRun,
};
use naglfar::layout_box::{BoxType, ImageData, LayoutBox, LayoutError};
use naglfar::replaced::resolve_replaced_size;
use naglfar::text::{max_fit, measure};

fn px(v: i64) -> i64 {
    v * AU_PER_PX
}

fn font() -> FontMetrics {
    FontMetrics { ascent: px(12), descent: px(4), line_height: px(20) }
}

fn run_of(widths_px: &[i64]) -> TextRun {
    TextRun { advances: widths_px.iter().map(|w| px(*w)).collect(), font: font() }
}

fn no_floats() -> Floats {
    Floats::new(vec![])
}

fn edges(v: i64) -> EdgeSizes {
    EdgeSizes { top: v, right: v, bottom: v, left: v }
}

fn boxed(content_w: i64, content_h: i64) -> Dimensions {
    Dimensions {
        content: Rect { x: 0, y: 0, width: content_w, height: content_h },
        padding: EdgeSizes::zero(),
        border: EdgeSizes::zero(),
        margin: EdgeSizes::zero(),
    }
}

fn text_piece(src: FragmentSource) -> (usize, usize, usize) {
    match src {
        FragmentSource::Text { item, start, end } => (item, start, end),
        FragmentSource::Atomic { .. } => panic!("not text"),
    }
}

/// "the quick brown " is 280px, "fox jumps" 220px, 500px in all.
fn quick_brown_fox() -> TextRun {
    let mut w: Vec<i64> = vec![20; 14];
    w.push(0);
    w.push(0);
    w.push(40);
    w.extend(vec![22, 22, 22, 22, 22, 22, 22, 26]);
    run_of(&w)
}

#[test]
fn replaced_width_only_keeps_ratio() {
    assert_eq!(resolve_replaced_size(Some(px(50)), None, 200, 100), (px(50), px(25)));
}

#[test]
fn replaced_height_only_keeps_ratio() {
    assert_eq!(resolve_replaced_size(None, Some(px(30)), 200, 100), (px(60), px(30)));
}

#[test]
fn replaced_both_sizes_taken_verbatim() {
    assert_eq!(resolve_replaced_size(Some(px(7)), Some(px(9)), 200, 100), (px(7), px(9)));
}

#[test]
fn replaced_intrinsic_size_when_none_given() {
    assert_eq!(resolve_replaced_size(None, None, 200, 100), (px(200), px(100)));
}

#[test]
fn replaced_failed_image_scales_to_zero() {
    assert_eq!(resolve_replaced_size(Some(px(50)), None, 0, 0), (px(50), 0));
}

#[test]
fn layout_inline_sizes_an_image() {
    let mut b = LayoutBox {
        box_type: BoxType::ImageNode(ImageData {
            intrinsic_width_px: 200,
            intrinsic_height_px: 100,
            specified_width: Some(px(50)),
            specified_height: None,
        }),
        dimensions: boxed(0, 0),
        children: vec![],
    };
    b.layout_inline();
    assert_eq!(b.dimensions.content.width, px(50));
    assert_eq!(b.dimensions.content.height, px(25));
}

#[test]
fn measure_and_max_fit() {
    let adv = vec![10, 20, 30, 40];
    assert_eq!(measure(&adv, 1, 3), 50);
    assert_eq!(max_fit(&adv, 0, 4, 65), (3, 60));
    assert_eq!(max_fit(&adv, 1, 4, 19), (0, 0));
    assert_eq!(max_fit(&adv, 0, 4, 1000), (4, 100));
}

#[test]
fn float_band_narrows_the_line() {
    let floats = Floats::new(vec![FloatBand { top: 0, bottom: px(30), left: px(40), right: px(10) }]);
    assert_eq!(floats.available_area(px(300), 0), Zone { x: px(40), width: px(250), ceiling: px(30) });
    assert_eq!(floats.available_area(px(300), px(30)), Zone { x: 0, width: px(300), ceiling: 1099511627776 });
    assert_eq!(floats.available_area(px(300), px(-5)).ceiling, 0);
}

#[test]
fn text_wraps_into_two_lines() {
    let mut lm = LineMaker::from_items(vec![InlineItem::Text(quick_brown_fox())], no_floats());
    lm.run(px(300));
    assert_eq!(lm.lines.len(), 1);
    assert_eq!(lm.lines[0].width, px(280));
    assert_eq!(lm.cur_width, px(220));
    lm.end_of_lines();
    assert_eq!(lm.lines.len(), 2);
    assert!(lm.lines[0].width <= px(300));
    assert_eq!(text_piece(lm.new_boxes[0].source), (0, 0, 16));
    assert_eq!(text_piece(lm.new_boxes[1].source), (0, 16, 25));
    assert_eq!(lm.lines[1].start, 1);
    assert_eq!(lm.lines[1].width, px(220));
}

#[test]
fn remainder_starts_with_cleared_metrics() {
    let mut lm = LineMaker::from_items(vec![InlineItem::Text(quick_brown_fox())], no_floats());
    lm.run(px(300));
    // line height 20 over glyphs of 16: 2px of leading each side
    assert_eq!(lm.lines[0].metrics.above_baseline, px(14));
    assert_eq!(lm.lines[0].metrics.under_baseline, px(6));
    assert_eq!(lm.cur_height, px(20));
    assert_eq!(lm.start, 1);
    assert_eq!(lm.cur_width, px(220));
}

#[test]
fn every_line_fits_the_width() {
    let words: Vec<i64> = (0..200).map(|i| 5 + (i % 7)).collect();
    let mut lm = LineMaker::from_items(
        vec![InlineItem::Text(run_of(&words)), InlineItem::Text(run_of(&words))],
        no_floats(),
    );
    lm.run(px(97));
    lm.end_of_lines();
    assert!(lm.lines.len() > 5);
    for l in &lm.lines {
        assert!(l.width <= px(97));
        let sum: i64 = lm.new_boxes[l.start..l.end]
            .iter()
            .map(|f| f.dims.content.width + f.dims.left_offset() + f.dims.right_offset())
            .sum();
        assert_eq!(sum, l.width);
    }
}

#[test]
fn text_ranges_partition_each_run() {
    let a: Vec<i64> = vec![9; 41];
    let b: Vec<i64> = vec![13; 17];
    let mut lm = LineMaker::from_items(
        vec![InlineItem::Text(run_of(&a)), InlineItem::Text(run_of(&b))],
        no_floats(),
    );
    lm.run(px(100));
    lm.end_of_lines();
    for (item, len) in [(0usize, 41usize), (1, 17)] {
        let mut next = 0;
        for f in &lm.new_boxes {
            let (it, s, e) = text_piece(f.source);
            if it == item {
                assert_eq!(s, next);
                assert!(e > s);
                next = e;
            }
        }
        assert_eq!(next, len);
    }
}

#[test]
fn measuring_makes_one_line_of_everything() {
    let mut lm = LineMaker::from_items(
        vec![
            InlineItem::Text(quick_brown_fox()),
            InlineItem::Atomic(boxed(px(70), px(30)), px(30)),
            InlineItem::Text(run_of(&[5, 5, 5])),
        ],
        no_floats(),
    );
    lm.run(-1);
    assert_eq!(lm.lines.len(), 0);
    lm.end_of_lines();
    assert_eq!(lm.lines.len(), 1);
    assert_eq!((lm.lines[0].start, lm.lines[0].end), (0, 3));
    assert_eq!(lm.intrinsic_width(), px(500 + 70 + 15));
}

#[test]
fn fragments_share_the_baseline() {
    let mut lm = LineMaker::from_items(
        vec![
            InlineItem::Text(quick_brown_fox()),
            InlineItem::Atomic(boxed(px(40), px(50)), px(50)),
            InlineItem::Text(run_of(&[30; 12])),
        ],
        no_floats(),
    );
    lm.run(px(300));
    lm.end_of_lines();
    lm.assign_position(TextAlign::Left);
    let mut top = 0;
    for l in &lm.lines {
        for f in &lm.new_boxes[l.start..l.end] {
            assert_eq!(f.dims.content.y + f.ascent, top + l.metrics.above_baseline);
        }
        top += l.metrics.above_baseline + l.metrics.under_baseline;
    }
    assert_eq!(lm.new_boxes[0].dims.content.y, px(14) - px(12));
}

#[test]
fn inline_edges_are_trimmed_at_breaks() {
    let mut d = boxed(0, 0);
    d.padding = edges(px(3));
    d.border = edges(px(1));
    let mut lm = LineMaker::from_items(
        vec![
            InlineItem::Open(d),
            InlineItem::Text(run_of(&[10; 25])),
            InlineItem::Close,
        ],
        no_floats(),
    );
    lm.run(px(100));
    lm.end_of_lines();
    assert_eq!(lm.lines.len(), 3);
    let f = &lm.new_boxes;
    assert_eq!(f.len(), 3);
    assert_eq!((f[0].dims.padding.left, f[0].dims.border.left), (px(3), px(1)));
    assert_eq!((f[0].dims.padding.right, f[0].dims.border.right), (0, 0));
    assert_eq!((f[1].dims.padding.left, f[1].dims.padding.right), (0, 0));
    assert_eq!((f[1].dims.border.left, f[1].dims.border.right), (0, 0));
    assert_eq!((f[2].dims.padding.left, f[2].dims.border.left), (0, 0));
    assert_eq!((f[2].dims.padding.right, f[2].dims.border.right), (px(3), px(1)));
    for l in &lm.lines {
        assert!(l.width <= px(100));
    }
}

#[test]
fn unbroken_inline_keeps_both_edges() {
    let mut d = boxed(0, 0);
    d.margin = edges(px(2));
    let mut lm = LineMaker::from_items(
        vec![InlineItem::Open(d), InlineItem::Text(run_of(&[10; 3])), InlineItem::Close],
        no_floats(),
    );
    lm.run(px(100));
    lm.end_of_lines();
    assert_eq!(lm.lines.len(), 1);
    assert_eq!((lm.new_boxes[0].dims.margin.left, lm.new_boxes[0].dims.margin.right), (px(2), px(2)));
    assert_eq!(lm.lines[0].width, px(34));
}

#[test]
fn wide_atomic_box_takes_a_line_alone() {
    let mut lm = LineMaker::from_items(
        vec![
            InlineItem::Text(run_of(&[10; 5])),
            InlineItem::Atomic(boxed(px(400), px(20)), px(20)),
            InlineItem::Text(run_of(&[10; 5])),
        ],
        no_floats(),
    );
    lm.run(px(100));
    lm.end_of_lines();
    assert_eq!(lm.lines.len(), 3);
    assert_eq!((lm.lines[1].start, lm.lines[1].end), (1, 2));
    assert_eq!(lm.lines[1].width, px(400));
    assert_eq!(lm.lines[1].metrics.above_baseline, px(20));
}

#[test]
fn a_character_wider_than_the_line_goes_alone() {
    let mut lm = LineMaker::from_items(vec![InlineItem::Text(run_of(&[150, 10]))], no_floats());
    lm.run(px(100));
    lm.end_of_lines();
    assert_eq!(lm.lines.len(), 2);
    assert_eq!(text_piece(lm.new_boxes[0].source), (0, 0, 1));
    assert_eq!(lm.lines[0].width, px(150));
}

#[test]
fn unsupported_content_is_skipped() {
    let mut lm = LineMaker::from_items(
        vec![InlineItem::Unsupported, InlineItem::Text(run_of(&[10; 2]))],
        no_floats(),
    );
    lm.run(px(100));
    lm.end_of_lines();
    assert_eq!(lm.new_boxes.len(), 1);
    assert_eq!(text_piece(lm.new_boxes[0].source), (1, 0, 2));
}

#[test]
fn alignment_shifts_lines() {
    for (align, x) in [(TextAlign::Left, 0), (TextAlign::Center, px(35)), (TextAlign::Right, px(70))] {
        let mut lm = LineMaker::from_items(vec![InlineItem::Text(run_of(&[10; 3]))], no_floats());
        lm.run(px(100));
        lm.end_of_lines();
        lm.assign_position(align);
        assert_eq!(lm.new_boxes[0].dims.content.x, x);
    }
}

#[test]
fn floats_move_and_narrow_lines() {
    let floats = Floats::new(vec![FloatBand { top: 0, bottom: px(20), left: px(50), right: 0 }]);
    let mut lm = LineMaker::from_items(vec![InlineItem::Text(run_of(&[10; 12]))], floats);
    lm.run(px(100));
    lm.end_of_lines();
    lm.assign_position(TextAlign::Left);
    assert_eq!(lm.lines.len(), 2);
    assert_eq!(lm.lines[0].width, px(50));
    assert_eq!(lm.lines[1].width, px(70));
    assert_eq!(lm.new_boxes[0].dims.content.x, px(50));
    assert_eq!(lm.new_boxes[1].dims.content.x, 0);
}

#[test]
fn tree_flattens_into_items() {
    let text = LayoutBox { box_type: BoxType::TextNode(run_of(&[10; 4])), dimensions: boxed(0, 0), children: vec![] };
    let mut d = boxed(0, 0);
    d.padding = edges(px(5));
    let inline = LayoutBox { box_type: BoxType::InlineNode, dimensions: d, children: vec![text] };
    let block = LayoutBox { box_type: BoxType::BlockNode, dimensions: boxed(0, 0), children: vec![] };
    let mut lm = LineMaker::new(vec![inline, block], no_floats());
    assert_eq!(lm.items.len(), 4);
    assert!(matches!(lm.items[0], InlineItem::Open(_)));
    assert!(matches!(lm.items[2], InlineItem::Close));
    assert!(matches!(lm.items[3], InlineItem::Unsupported));
    lm.run(px(100));
    lm.end_of_lines();
    assert_eq!(lm.lines[0].width, px(50));
}

#[test]
fn first_text_node_and_ascent() {
    let text = LayoutBox { box_type: BoxType::TextNode(run_of(&[10])), dimensions: boxed(0, 0), children: vec![] };
    let inner = LayoutBox { box_type: BoxType::InlineNode, dimensions: boxed(0, 0), children: vec![text] };
    let outer = LayoutBox { box_type: BoxType::InlineBlockNode(Some(px(80))), dimensions: boxed(0, px(33)), children: vec![inner] };
    assert!(outer.get_first_text_node().is_some());
    assert_eq!(outer.content_inline_ascent(), px(12));
    let empty = LayoutBox { box_type: BoxType::InlineNode, dimensions: boxed(0, px(33)), children: vec![] };
    assert!(empty.get_first_text_node().is_none());
    assert_eq!(empty.content_inline_ascent(), px(33));
}

#[test]
fn inline_block_needs_an_explicit_width() {
    let mut sized = LayoutBox { box_type: BoxType::InlineBlockNode(Some(px(80))), dimensions: boxed(0, px(10)), children: vec![] };
    assert_eq!(sized.calculate_inline_block_width(), Ok(()));
    assert_eq!(sized.dimensions.content.width, px(80));
    let mut auto = LayoutBox { box_type: BoxType::InlineBlockNode(None), dimensions: boxed(0, px(10)), children: vec![] };
    assert_eq!(auto.calculate_inline_block_width(), Err(LayoutError::UnsupportedShrinkToFit));
}

#[test]
fn flushing_records_the_line_and_leaves_the_cursor() {
    let mut lm = LineMaker::from_items(vec![InlineItem::Text(run_of(&[10; 3]))], no_floats());
    lm.run(px(100));
    lm.flush_cur_line();
    assert_eq!(lm.lines.len(), 1);
    assert_eq!((lm.lines[0].start, lm.lines[0].end), (0, 1));
    assert_eq!(lm.lines[0].width, px(30));
    assert_eq!(lm.start, 1);
    assert_eq!(lm.cur_height, px(20));
    assert_eq!(lm.cur_width, px(30));
    assert_eq!(lm.cur_metrics.above_baseline, px(14));
}
