use bad_apple::rectframes::{
    binarize, check_frame, convert_frame, convert_rectframes, idx, merge_frame_to_rects, multiplier_is_positive,
    pixel_sum, row_runs, ConfigurationFault, Conversion, ConvertError, ConvertRectframesOpts,
    FrameInput, GrayFrame, Rect,
};

fn rect(x: u32, y: u32, w: u32, h: u32) -> Rect {
    Rect { x, y, w, h, v: 1 }
}

fn mask_of(rows: &[&str]) -> Vec<u8> {
    let mut mask = Vec::new();
    for row in rows {
        for c in row.chars() {
            mask.push(if c == '1' { 1 } else { 0 });
        }
    }
    mask
}

fn draw(rects: &[Rect], w: usize, h: usize) -> Vec<u8> {
    let mut mask = vec![0u8; w * h];
    for r in rects {
        for y in r.y..r.y + r.h {
            for x in r.x..r.x + r.w {
                mask[y as usize * w + x as usize] += 1;
            }
        }
    }
    mask
}

fn levels_below(threshold: f32) -> u16 {
    let mut n = 0u16;
    for p in 0..=255u16 {
        if (p as f32) < threshold {
            n += 1;
        }
    }
    n
}

fn opts(w: u32, h: u32, invert: bool) -> ConvertRectframesOpts {
    ConvertRectframesOpts { w, h, fps: 30, invert, th_mul_bits: 0.95f32.to_bits() }
}

fn decoded(width: u32, height: u32, pixels: Vec<u8>, cutoff: u16) -> FrameInput {
    FrameInput::Decoded { frame: GrayFrame { width, height, pixels }, cutoff }
}

#[test]
fn idx_is_row_major() {
    assert_eq!(idx(0, 0, 7), 0);
    assert_eq!(idx(3, 0, 7), 3);
    assert_eq!(idx(3, 2, 7), 17);
    assert_eq!(idx(6, 4, 7), 34);
}

#[test]
fn all_off_mask_has_no_rectangles() {
    let mask = mask_of(&["000", "000", "000"]);
    assert_eq!(merge_frame_to_rects(&mask, 3, 3), vec![]);
}

#[test]
fn equal_rows_stack_into_one_rectangle() {
    let mask = mask_of(&["111", "111", "000"]);
    assert_eq!(merge_frame_to_rects(&mask, 3, 3), vec![rect(0, 0, 3, 2)]);
}

#[test]
fn shifted_runs_start_new_rectangles() {
    let mask = mask_of(&["110", "011", "110"]);
    assert_eq!(
        merge_frame_to_rects(&mask, 3, 3),
        vec![rect(0, 0, 2, 1), rect(1, 1, 2, 1), rect(0, 2, 2, 1)]
    );
}

#[test]
fn run_that_returns_after_a_gap_is_a_second_rectangle() {
    let mask = mask_of(&["0110", "0000", "0110", "0110"]);
    assert_eq!(merge_frame_to_rects(&mask, 4, 4), vec![rect(1, 0, 2, 1), rect(1, 2, 2, 2)]);
}

#[test]
fn change_of_width_by_one_cell_ends_the_rectangle() {
    let mask = mask_of(&["1110", "1111", "1110"]);
    assert_eq!(
        merge_frame_to_rects(&mask, 4, 3),
        vec![rect(0, 0, 3, 1), rect(0, 1, 4, 1), rect(0, 2, 3, 1)]
    );
}

#[test]
fn rectangles_come_in_the_order_of_their_corners() {
    let mask = mask_of(&["10101", "10001", "11101", "00101"]);
    assert_eq!(
        merge_frame_to_rects(&mask, 5, 4),
        vec![
            rect(0, 0, 1, 2),
            rect(2, 0, 1, 1),
            rect(4, 0, 1, 4),
            rect(0, 2, 3, 1),
            rect(2, 3, 1, 1),
        ]
    );
}

#[test]
fn full_mask_is_one_rectangle() {
    let mask = vec![1u8; 12];
    assert_eq!(merge_frame_to_rects(&mask, 4, 3), vec![rect(0, 0, 4, 3)]);
}

#[test]
fn empty_grids_have_no_rectangles() {
    assert_eq!(merge_frame_to_rects(&[], 0, 0), vec![]);
    assert_eq!(merge_frame_to_rects(&[], 5, 0), vec![]);
    assert_eq!(merge_frame_to_rects(&[], 0, 5), vec![]);
}

#[test]
fn row_runs_are_maximal_and_left_to_right() {
    let mask = mask_of(&["0000000", "1101110", "1111111", "0010001"]);
    assert_eq!(row_runs(&mask, 7, 4, 0), vec![]);
    assert_eq!(row_runs(&mask, 7, 4, 1), vec![(0, 2), (3, 3)]);
    assert_eq!(row_runs(&mask, 7, 4, 2), vec![(0, 7)]);
    assert_eq!(row_runs(&mask, 7, 4, 3), vec![(2, 1), (6, 1)]);
}

#[test]
fn rectangles_cover_each_lit_cell_once() {
    let rows = ["0110011", "0110010", "1110010", "0000111", "1010111", "1010000"];
    let mask = mask_of(&rows);
    let rects = merge_frame_to_rects(&mask, 7, 6);
    assert_eq!(draw(&rects, 7, 6), mask);
    assert_eq!(
        rects,
        vec![
            rect(1, 0, 2, 2),
            rect(5, 0, 2, 1),
            rect(5, 1, 1, 2),
            rect(0, 2, 3, 1),
            rect(4, 3, 3, 2),
            rect(0, 4, 1, 2),
            rect(2, 4, 1, 2),
        ]
    );
}

#[test]
fn rectangles_do_not_overlap() {
    let rows = ["0110011", "0110010", "1110010", "0000111", "1010111", "1010000"];
    let rects = merge_frame_to_rects(&mask_of(&rows), 7, 6);
    for (i, a) in rects.iter().enumerate() {
        for b in rects.iter().skip(i + 1) {
            let apart = a.x + a.w <= b.x
                || b.x + b.w <= a.x
                || a.y + a.h <= b.y
                || b.y + b.h <= a.y;
            assert!(apart);
        }
    }
}

#[test]
fn merging_the_drawn_rectangles_gives_them_again() {
    let rows = ["0110011", "0110010", "1110010", "0000111", "1010111", "1010000"];
    let rects = merge_frame_to_rects(&mask_of(&rows), 7, 6);
    let again = merge_frame_to_rects(&draw(&rects, 7, 6), 7, 6);
    assert_eq!(again, rects);
}

#[test]
fn pixel_sum_adds_all_intensities() {
    assert_eq!(pixel_sum(&[]), 0);
    assert_eq!(pixel_sum(&[7]), 7);
    assert_eq!(pixel_sum(&[0, 255, 255, 1, 100]), 611);
    assert_eq!(pixel_sum(&vec![255u8; 100_000]), 25_500_000);
}

#[test]
fn binarize_compares_strictly() {
    assert_eq!(binarize(&[0, 94, 95, 96, 255], 95, false), vec![1, 1, 0, 0, 0]);
    assert_eq!(binarize(&[0, 94, 95, 96, 255], 0, false), vec![0, 0, 0, 0, 0]);
    assert_eq!(binarize(&[0, 94, 95, 96, 255], 256, false), vec![1, 1, 1, 1, 1]);
    assert_eq!(binarize(&[0, 94, 95, 96, 255], 255, false), vec![1, 1, 1, 1, 0]);
    assert_eq!(binarize(&[], 95, false), vec![]);
}

#[test]
fn inverted_mask_is_the_complement() {
    let gray = [0u8, 12, 94, 95, 96, 200, 255, 95];
    for cutoff in [0u16, 1, 95, 96, 255, 256, 1000] {
        let plain = binarize(&gray, cutoff, false);
        let inverted = binarize(&gray, cutoff, true);
        assert_eq!(plain.len(), gray.len());
        for i in 0..gray.len() {
            assert_eq!(inverted[i], 1 - plain[i]);
        }
    }
    assert_eq!(binarize(&gray, 95, true), vec![0, 0, 0, 1, 1, 1, 1, 1]);
}

#[test]
fn higher_cutoff_lights_no_fewer_cells() {
    let gray = [0u8, 12, 94, 95, 96, 200, 255, 95, 13, 13];
    let mut last = 0usize;
    for cutoff in 0..=300u16 {
        let lit = binarize(&gray, cutoff, false).iter().filter(|c| **c == 1).count();
        assert!(lit >= last);
        last = lit;
    }
    assert_eq!(last, gray.len());
    assert_eq!(binarize(&gray, 13, false).iter().filter(|c| **c == 1).count(), 2);
    assert_eq!(binarize(&gray, 14, false).iter().filter(|c| **c == 1).count(), 4);
}

#[test]
fn uniform_frame_at_its_own_level_is_all_off() {
    let pixels = vec![100u8; 12];
    let base = pixel_sum(&pixels) as f32 / pixels.len() as f32;
    assert_eq!(base, 100.0);
    let threshold = base * 0.95f32;
    assert_eq!(threshold.round(), 95.0);
    let cutoff = levels_below(threshold);
    let frames = vec![decoded(4, 3, pixels, cutoff)];
    let payload = convert_rectframes(&opts(4, 3, false), &frames, threshold.round() as u8).unwrap();
    assert_eq!(payload.rect_frames, vec![Vec::<Rect>::new()]);
    assert_eq!(payload.threshold, 95);
    assert_eq!(payload.frames_count, 1);
}

#[test]
fn uniform_frame_inverted_is_one_rectangle() {
    let frames = vec![decoded(4, 3, vec![100u8; 12], 95)];
    let payload = convert_rectframes(&opts(4, 3, true), &frames, 95).unwrap();
    assert_eq!(payload.rect_frames, vec![vec![rect(0, 0, 4, 3)]]);
}

#[test]
fn frame_of_another_size_is_refused() {
    let frames = vec![decoded(10, 5, vec![0u8; 50], 95)];
    assert_eq!(
        convert_rectframes(&opts(8, 5, false), &frames, 95).unwrap_err(),
        ConvertError::DimensionMismatch {
            frame: 0,
            expected_width: 8,
            expected_height: 5,
            width: 10,
            height: 5,
        }
    );
}

#[test]
fn payload_hands_the_configuration_on() {
    let o = ConvertRectframesOpts {
        w: 3,
        h: 2,
        fps: 24,
        invert: false,
        th_mul_bits: 1.25f32.to_bits(),
    };
    let frames = vec![
        decoded(3, 2, vec![10, 200, 10, 10, 200, 10], 100),
        decoded(3, 2, vec![200, 200, 10, 10, 10, 200], 100),
        decoded(3, 2, vec![200, 200, 200, 200, 200, 200], 100),
    ];
    let payload = convert_rectframes(&o, &frames, 131).unwrap();
    assert_eq!(payload.width, 3);
    assert_eq!(payload.height, 2);
    assert_eq!(payload.fps, 24);
    assert_eq!(payload.threshold, 131);
    assert_eq!(f32::from_bits(payload.th_mul_bits), 1.25);
    assert!(!payload.invert);
    assert_eq!(payload.frames_count, 3);
    assert_eq!(
        payload.rect_frames,
        vec![
            vec![rect(0, 0, 1, 2), rect(2, 0, 1, 2)],
            vec![rect(2, 0, 1, 1), rect(0, 1, 2, 1)],
            vec![],
        ]
    );
}

#[test]
fn multiplier_must_be_a_positive_number() {
    let frames = vec![decoded(1, 1, vec![0], 1)];
    for bad in [0.0f32, -0.0, -1.0, f32::NAN, f32::INFINITY, f32::NEG_INFINITY] {
        let o = ConvertRectframesOpts { w: 1, h: 1, fps: 30, invert: false, th_mul_bits: bad.to_bits() };
        assert_eq!(
            convert_rectframes(&o, &frames, 0).unwrap_err(),
            ConvertError::Configuration(ConfigurationFault::InvalidThresholdMultiplier)
        );
    }
    for good in [0.95f32, 1.0, f32::MIN_POSITIVE, f32::MAX, 1.0e-40] {
        let o = ConvertRectframesOpts { w: 1, h: 1, fps: 30, invert: false, th_mul_bits: good.to_bits() };
        assert!(convert_rectframes(&o, &frames, 0).is_ok());
    }
}

#[test]
fn no_frames_is_a_configuration_fault() {
    assert_eq!(
        convert_rectframes(&opts(4, 3, false), &vec![], 0).unwrap_err(),
        ConvertError::Configuration(ConfigurationFault::NoFrames)
    );
}

#[test]
fn configuration_is_checked_before_the_frames() {
    let o = ConvertRectframesOpts { w: 4, h: 3, fps: 30, invert: false, th_mul_bits: 0 };
    assert_eq!(
        convert_rectframes(&o, &vec![], 0).unwrap_err(),
        ConvertError::Configuration(ConfigurationFault::InvalidThresholdMultiplier)
    );
    assert_eq!(
        convert_rectframes(&o, &vec![FrameInput::Undecodable], 0).unwrap_err(),
        ConvertError::Configuration(ConfigurationFault::InvalidThresholdMultiplier)
    );
}

#[test]
fn undecodable_frame_ends_the_conversion() {
    let frames = vec![
        decoded(2, 1, vec![0, 0], 10),
        FrameInput::Undecodable,
        decoded(2, 1, vec![0, 0], 10),
    ];
    assert_eq!(
        convert_rectframes(&opts(2, 1, false), &frames, 0).unwrap_err(),
        ConvertError::FrameDecode { frame: 1 }
    );
}

#[test]
fn buffer_of_the_wrong_length_is_no_frame() {
    let frames = vec![decoded(2, 2, vec![0, 0, 0], 10)];
    assert_eq!(
        convert_rectframes(&opts(2, 2, false), &frames, 0).unwrap_err(),
        ConvertError::FrameDecode { frame: 0 }
    );
    let frames = vec![decoded(3, 2, vec![0, 0, 0], 10)];
    assert_eq!(
        convert_rectframes(&opts(2, 2, false), &frames, 0).unwrap_err(),
        ConvertError::FrameDecode { frame: 0 }
    );
}

#[test]
fn first_fault_in_frame_order_is_reported() {
    let frames = vec![
        decoded(2, 1, vec![0, 0], 10),
        decoded(1, 2, vec![0, 0], 10),
        FrameInput::Undecodable,
    ];
    assert_eq!(
        convert_rectframes(&opts(2, 1, false), &frames, 0).unwrap_err(),
        ConvertError::DimensionMismatch {
            frame: 1,
            expected_width: 2,
            expected_height: 1,
            width: 1,
            height: 2,
        }
    );
    let frames = vec![
        FrameInput::Undecodable,
        decoded(1, 2, vec![0, 0], 10),
    ];
    assert_eq!(
        convert_rectframes(&opts(2, 1, false), &frames, 0).unwrap_err(),
        ConvertError::FrameDecode { frame: 0 }
    );
}

#[test]
fn convert_frame_thresholds_and_merges() {
    let input = decoded(3, 3, vec![10, 10, 200, 10, 10, 200, 200, 200, 200], 100);
    assert_eq!(convert_frame(&opts(3, 3, false), 0, &input).unwrap(), vec![rect(0, 0, 2, 2)]);
    assert_eq!(
        convert_frame(&opts(3, 3, true), 0, &input).unwrap(),
        vec![rect(2, 0, 1, 2), rect(0, 2, 3, 1)]
    );
    assert_eq!(
        convert_frame(&opts(3, 3, false), 7, &FrameInput::Undecodable).unwrap_err(),
        ConvertError::FrameDecode { frame: 7 }
    );
    assert_eq!(
        convert_frame(&opts(3, 4, false), 7, &input).unwrap_err(),
        ConvertError::DimensionMismatch {
            frame: 7,
            expected_width: 3,
            expected_height: 4,
            width: 3,
            height: 3,
        }
    );
}

#[test]
fn multiplier_bit_patterns() {
    assert!(multiplier_is_positive(0.95f32.to_bits()));
    assert!(multiplier_is_positive(1));
    assert!(multiplier_is_positive(0x7F7F_FFFF));
    assert!(!multiplier_is_positive(0));
    assert!(!multiplier_is_positive(0x7F80_0000));
    assert!(!multiplier_is_positive(0x7FC0_0000));
    assert!(!multiplier_is_positive(0x8000_0000));
    assert!(!multiplier_is_positive(0xBF80_0000));
    assert!(!multiplier_is_positive(u32::MAX));
}

#[test]
fn conversion_takes_frames_one_at_a_time() {
    let mut conversion = Conversion::new(opts(2, 2, false)).unwrap();
    conversion.push_frame(&decoded(2, 2, vec![0, 200, 0, 200], 100)).unwrap();
    conversion.push_frame(&decoded(2, 2, vec![200, 200, 0, 0], 100)).unwrap();
    let payload = conversion.finish(42).unwrap();
    assert_eq!(payload.frames_count, 2);
    assert_eq!(payload.threshold, 42);
    assert_eq!(payload.rect_frames, vec![vec![rect(0, 0, 1, 2)], vec![rect(0, 1, 2, 1)]]);
}

#[test]
fn conversion_does_not_take_a_frame_with_a_fault() {
    let mut conversion = Conversion::new(opts(2, 2, false)).unwrap();
    conversion.push_frame(&decoded(2, 2, vec![0, 0, 0, 0], 100)).unwrap();
    assert_eq!(
        conversion.push_frame(&decoded(2, 3, vec![0; 6], 100)).unwrap_err(),
        ConvertError::DimensionMismatch {
            frame: 1,
            expected_width: 2,
            expected_height: 2,
            width: 2,
            height: 3,
        }
    );
    assert_eq!(
        conversion.push_frame(&FrameInput::Undecodable).unwrap_err(),
        ConvertError::FrameDecode { frame: 1 }
    );
    conversion.push_frame(&decoded(2, 2, vec![200, 200, 200, 200], 100)).unwrap();
    let payload = conversion.finish(0).unwrap();
    assert_eq!(payload.frames_count, 2);
    assert_eq!(payload.rect_frames, vec![vec![rect(0, 0, 2, 2)], vec![]]);
}

#[test]
fn conversion_of_no_frames_gives_no_payload() {
    let conversion = Conversion::new(opts(2, 2, false)).unwrap();
    assert_eq!(
        conversion.finish(0).unwrap_err(),
        ConvertError::Configuration(ConfigurationFault::NoFrames)
    );
}

#[test]
fn conversion_needs_a_positive_multiplier() {
    let o = ConvertRectframesOpts { w: 2, h: 2, fps: 30, invert: false, th_mul_bits: (-0.95f32).to_bits() };
    assert_eq!(
        Conversion::new(o).err(),
        Some(ConvertError::Configuration(ConfigurationFault::InvalidThresholdMultiplier))
    );
}

#[test]
fn frame_is_checked_before_it_is_converted() {
    let good = GrayFrame { width: 3, height: 2, pixels: vec![0; 6] };
    assert_eq!(check_frame(&opts(3, 2, false), 4, &good), Ok(()));
    assert_eq!(
        check_frame(&opts(2, 3, false), 4, &good),
        Err(ConvertError::DimensionMismatch {
            frame: 4,
            expected_width: 2,
            expected_height: 3,
            width: 3,
            height: 2,
        })
    );
    let short = GrayFrame { width: 3, height: 2, pixels: vec![0; 5] };
    assert_eq!(check_frame(&opts(3, 2, false), 4, &short), Err(ConvertError::FrameDecode { frame: 4 }));
    let empty = GrayFrame { width: 0, height: 7, pixels: vec![] };
    assert_eq!(check_frame(&opts(0, 7, false), 0, &empty), Ok(()));
}
