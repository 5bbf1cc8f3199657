use rect_packer::{pack, PackError, Rect};

#[test]
fn test_basic_packing() {
    for _ in 0..10 {
        let mut rects = vec![Rect::new(1280, 720); 4];

        pack(&mut rects, 2560, 1440).unwrap();

        assert_eq!(rects[0].packed_top_left_x, 0);
        assert_eq!(rects[0].packed_top_left_y, 0);

        assert_eq!(rects[1].packed_top_left_x, 1280);
        assert_eq!(rects[1].packed_top_left_y, 0);

        assert_eq!(rects[2].packed_top_left_x, 0);
        assert_eq!(rects[2].packed_top_left_y, 720);

        assert_eq!(rects[3].packed_top_left_x, 1280);
        assert_eq!(rects[3].packed_top_left_y, 720);
    }
}

#[test]
fn exact_fit_single_rect() {
    let mut rects = vec![Rect::new(100, 100)];
    pack(&mut rects, 100, 100).unwrap();
    assert_eq!(rects[0].packed_top_left_x, 0);
    assert_eq!(rects[0].packed_top_left_y, 0);
}

#[test]
fn oversized_rect_fails() {
    let mut wide = vec![Rect::new(200, 50)];
    let r = pack(&mut wide, 100, 100);
    assert!(matches!(r, Err(PackError::FailedToPack)));

    let mut tall = vec![Rect::new(50, 200)];
    let r2 = pack(&mut tall, 100, 100);
    assert!(matches!(r2, Err(PackError::FailedToPack)));
}

#[test]
fn empty_input_gives_no_input() {
    let mut rects: Vec<Rect> = Vec::new();
    let r = pack(&mut rects, 100, 100);
    assert!(matches!(r, Err(PackError::NoInput)));
}

#[test]
fn zero_dimension_reports_first_offender() {
    let mut rects = vec![Rect::new(5, 5), Rect::new(0, 7), Rect::new(3, -2)];
    let r = pack(&mut rects, 100, 100);
    assert!(matches!(r, Err(PackError::Dimension(1))));
}

#[test]
fn dimension_check_precedes_packing() {
    // the first rectangle could never pack, but validation runs before
    // any placement is attempted
    let mut rects = vec![Rect::new(200, 200), Rect::new(0, 5)];
    let r = pack(&mut rects, 100, 100);
    assert!(matches!(r, Err(PackError::Dimension(1))));
}

#[test]
fn failure_leaves_rects_untouched() {
    let mut rects = vec![
        Rect { width: 60, height: 60, packed_top_left_x: 7, packed_top_left_y: 8 },
        Rect { width: 60, height: 60, packed_top_left_x: 9, packed_top_left_y: 11 },
    ];
    let r = pack(&mut rects, 100, 100);
    assert!(matches!(r, Err(PackError::FailedToPack)));
    assert_eq!(rects[0].packed_top_left_x, 7);
    assert_eq!(rects[0].packed_top_left_y, 8);
    assert_eq!(rects[1].packed_top_left_x, 9);
    assert_eq!(rects[1].packed_top_left_y, 11);
}

#[test]
fn invalid_dimension_leaves_rects_untouched() {
    let mut rects = vec![
        Rect { width: 10, height: 0, packed_top_left_x: 3, packed_top_left_y: 4 },
    ];
    let r = pack(&mut rects, 100, 100);
    assert!(matches!(r, Err(PackError::Dimension(0))));
    assert_eq!(rects[0].packed_top_left_x, 3);
    assert_eq!(rects[0].packed_top_left_y, 4);
}

#[test]
fn width_breaks_height_ties() {
    // equal heights: the wider rectangle packs first
    let mut rects = vec![Rect::new(4, 3), Rect::new(2, 2), Rect::new(10, 2)];
    pack(&mut rects, 10, 10).unwrap();
    assert_eq!((rects[0].packed_top_left_x, rects[0].packed_top_left_y), (0, 0));
    assert_eq!((rects[1].packed_top_left_x, rects[1].packed_top_left_y), (0, 5));
    assert_eq!((rects[2].packed_top_left_x, rects[2].packed_top_left_y), (0, 3));
}

#[test]
fn bottom_left_prefers_lower_spot() {
    let mut rects = vec![Rect::new(6, 4), Rect::new(3, 3)];
    pack(&mut rects, 10, 10).unwrap();
    assert_eq!((rects[0].packed_top_left_x, rects[0].packed_top_left_y), (0, 0));
    // the floor right of the first rectangle is lower than its top
    assert_eq!((rects[1].packed_top_left_x, rects[1].packed_top_left_y), (6, 0));
}

#[test]
fn repeated_runs_place_identically() {
    let sizes = [(7, 5), (3, 9), (4, 4), (6, 2), (2, 2), (5, 5)];
    let mut first: Vec<Rect> = sizes.iter().map(|&(w, h)| Rect::new(w, h)).collect();
    pack(&mut first, 16, 16).unwrap();
    for _ in 0..5 {
        let mut again: Vec<Rect> = sizes.iter().map(|&(w, h)| Rect::new(w, h)).collect();
        pack(&mut again, 16, 16).unwrap();
        for (a, b) in first.iter().zip(again.iter()) {
            assert_eq!(a.packed_top_left_x, b.packed_top_left_x);
            assert_eq!(a.packed_top_left_y, b.packed_top_left_y);
        }
    }
}

#[test]
fn all_placements_inside_and_disjoint() {
    let sizes = [(7, 5), (3, 9), (4, 4), (6, 2), (2, 2), (5, 5), (1, 1), (8, 3)];
    let mut rects: Vec<Rect> = sizes.iter().map(|&(w, h)| Rect::new(w, h)).collect();
    pack(&mut rects, 20, 20).unwrap();
    for r in &rects {
        assert!(r.packed_top_left_x >= 0 && r.packed_top_left_y >= 0);
        assert!(r.packed_top_left_x + r.width <= 20);
        assert!(r.packed_top_left_y + r.height <= 20);
    }
    for i in 0..rects.len() {
        for j in 0..rects.len() {
            if i != j {
                let a = &rects[i];
                let b = &rects[j];
                let apart = a.packed_top_left_x + a.width <= b.packed_top_left_x
                    || b.packed_top_left_x + b.width <= a.packed_top_left_x
                    || a.packed_top_left_y + a.height <= b.packed_top_left_y
                    || b.packed_top_left_y + b.height <= a.packed_top_left_y;
                assert!(apart);
            }
        }
    }
}

#[test]
fn error_messages() {
    assert_eq!(PackError::NoInput.message(), "No input given");
    assert_eq!(PackError::Dimension(0).message(), "Unexpected input dimension");
    assert_eq!(PackError::FailedToPack.message(), "Failed to pack");
}

#[test]
fn rect_new_clears_placement() {
    let r = Rect::new(12, 34);
    assert_eq!(r.width, 12);
    assert_eq!(r.height, 34);
    assert_eq!(r.packed_top_left_x, 0);
    assert_eq!(r.packed_top_left_y, 0);
}
