use zelkova::gui::ranges::{adjust_highlight_offsets, overlay_selection, slice_runs, Overlay};

/// A style for the tests: a color number.
type Color = u32;

#[test]
fn slice_runs_fully_inside() {
    let runs = vec![5usize, 5];
    let out = slice_runs(&runs, 2, 7);
    assert_eq!(out.len(), 2);
    assert_eq!(out[0].1, 3);
    assert_eq!(out[1].1, 2);
}

#[test]
fn slice_runs_drops_outside() {
    let runs = vec![5usize, 5, 5];
    let out = slice_runs(&runs, 6, 9);
    assert_eq!(out.len(), 1);
    assert_eq!(out[0].1, 3);
    assert_eq!(out[0].0, 1);
}

#[test]
fn slice_runs_empty_range() {
    let runs = vec![5usize];
    let out = slice_runs(&runs, 3, 3);
    assert!(out.is_empty());
}

#[test]
fn overlay_empty_selection() {
    let h: Vec<(std::ops::Range<usize>, Color)> = vec![(0..5, 7)];
    let result = overlay_selection(h.clone(), 3..3);
    assert_eq!(result, vec![(0..5, Overlay::Style(7))]);
}

#[test]
fn overlay_no_highlights() {
    let result = overlay_selection::<Color>(vec![], 0..5);
    assert_eq!(result.len(), 1);
    assert_eq!(result[0].0, 0..5);
    assert_eq!(result[0].1, Overlay::Selection);
}

#[test]
fn overlay_full_overlap() {
    let result = overlay_selection(vec![(0..10, 7 as Color)], 2..8);
    // before, overlap, after
    assert_eq!(result.len(), 3);
    assert_eq!(result[0].0, 0..2);
    assert_eq!(result[1].0, 2..8);
    assert_eq!(result[1].1, Overlay::Selected(7));
    assert_eq!(result[2].0, 8..10);
    assert_eq!(result[2].1, Overlay::Style(7));
}

#[test]
fn overlay_highlight_outside_selection() {
    let result = overlay_selection(vec![(0..3, 7 as Color), (8..12, 7)], 4..7);
    // highlight before + gap + gap + highlight after
    assert_eq!(result.len(), 3);
    assert_eq!(result[0].0, 0..3);
    assert_eq!(result[1].0, 4..7);
    assert_eq!(result[2].0, 8..12);
}

#[test]
fn overlay_fills_gaps_between_highlights() {
    let result = overlay_selection(vec![(2..4, 1 as Color), (6..8, 2)], 0..10);
    assert_eq!(
        result,
        vec![
            (0..2, Overlay::Selection),
            (2..4, Overlay::Selected(1)),
            (4..6, Overlay::Selection),
            (6..8, Overlay::Selected(2)),
            (8..10, Overlay::Selection),
        ]
    );
}

#[test]
fn adjust_keeps_overlapping() {
    let result = adjust_highlight_offsets(&[(2..8, 7 as Color)], 2, 10);
    assert_eq!(result.len(), 1);
    assert_eq!(result[0].0, 0..6);
}

#[test]
fn adjust_removes_non_overlapping() {
    let result = adjust_highlight_offsets(&[(0..3, 7 as Color), (10..15, 7)], 5, 10);
    assert!(result.is_empty());
}

#[test]
fn adjust_clips_to_slice() {
    let result = adjust_highlight_offsets(&[(0..7, 1 as Color), (8..20, 2)], 5, 10);
    assert_eq!(result, vec![(0..2, 1), (3..5, 2)]);
}
