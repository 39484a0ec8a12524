use rf_detr::config::{Args, PipelineError, PreprocessConfig};
use rf_detr::letterbox::letterbox_geometry;
use rf_detr::postprocess::{check_output_shape, PostProcessor};
use rf_detr::preprocess::{Processor, RawImage};
use rf_detr::yolo::{convert_yolo_result, Bbox, Embedding, Point2, YOLOResult};
use rf_detr::FIXED_ONE;

fn args(img_w: u32, img_h: u32, conf_th: u32, iou_th: u32) -> Args {
    Args {
        model: String::from("model.onnx"),
        cuda: false,
        profile: false,
        deep_profile: false,
        output: String::from("output"),
        img_w,
        img_h,
        conf_th,
        iou_th,
        ch: 3,
        mean: [485_000, 456_000, 406_000],
        std: [229_000, 224_000, 225_000],
    }
}

fn solid_image(width: u32, height: u32) -> RawImage {
    let mut data = Vec::new();
    for y in 0..height {
        for x in 0..width {
            data.push((10 * y + x) as u8);
            data.push(100 + (10 * y + x) as u8);
            data.push(200);
        }
    }
    RawImage { width, height, data }
}

#[test]
fn letterbox_of_landscape_image() {
    let g = letterbox_geometry(640, 480, 560, 560);
    assert_eq!(g.resized_w, 560);
    assert_eq!(g.resized_h, 420);
    assert_eq!(g.x_offset, 0);
    assert_eq!(g.y_offset, 70);
}

#[test]
fn letterbox_of_portrait_image() {
    let g = letterbox_geometry(300, 600, 560, 560);
    assert_eq!((g.resized_w, g.resized_h), (280, 560));
    assert_eq!((g.x_offset, g.y_offset), (140, 0));
}

#[test]
fn letterbox_rounds_down_and_centers() {
    let g = letterbox_geometry(1000, 3, 560, 560);
    assert_eq!((g.resized_w, g.resized_h), (560, 1));
    assert_eq!((g.x_offset, g.y_offset), (0, 279));
}

#[test]
fn end_to_end_box_maps_to_image_center() {
    let p = PostProcessor::new(args(560, 560, 500_000, 250_000));
    let boxes = vec![[500_000, 500_000, 100_000, 100_000]];
    let out = p.denormalize(640, 480, 0, 70, boxes);
    assert_eq!(out, vec![[320, 240, 64, 64]]);
}

#[test]
fn unpadded_center_round_trip() {
    let p = PostProcessor::new(args(560, 560, 500_000, 250_000));
    let g = letterbox_geometry(800, 800, 560, 560);
    assert_eq!((g.x_offset, g.y_offset), (0, 0));
    let out = p.denormalize(800, 800, g.x_offset, g.y_offset, vec![[500_000, 500_000, 250_000, 125_000]]);
    assert_eq!(out, vec![[400, 400, 200, 100]]);
}

#[test]
fn denormalize_rounds_half_away_from_zero() {
    let p = PostProcessor::new(args(2, 2, 0, 0));
    // scale 1: x = 0.25 * 2 = 0.5 -> 1, y = -0.25 * 2 = -0.5 -> -1
    let out = p.denormalize(2, 2, 0, 0, vec![[250_000, -250_000, 750_000, 0]]);
    assert_eq!(out, vec![[1, -1, 2, 0]]);
}

#[test]
fn threshold_is_inclusive() {
    let p = PostProcessor::new(args(560, 560, 500_000, 250_000));
    let probs = vec![vec![500_000, 300_000, 200_000], vec![300_001, 499_999, 200_000]];
    let boxes = vec![[1, 2, 3, 4], [5, 6, 7, 8]];
    let (classes, confs, kept) = p.softmax_and_filter(&probs, &boxes).unwrap();
    assert_eq!(classes, vec![0]);
    assert_eq!(confs, vec![500_000]);
    assert_eq!(kept, vec![[1, 2, 3, 4]]);
}

#[test]
fn uniform_row_is_kept_only_under_low_threshold() {
    let probs = vec![vec![250_000, 250_000, 250_000, 250_000]];
    let boxes = vec![[0, 0, 10, 10]];
    let low = PostProcessor::new(args(560, 560, 250_000, 250_000));
    let (classes, confs, _) = low.softmax_and_filter(&probs, &boxes).unwrap();
    assert_eq!(classes, vec![0]);
    assert_eq!(confs, vec![250_000]);
    let high = PostProcessor::new(args(560, 560, 250_001, 250_000));
    let (classes, _, _) = high.softmax_and_filter(&probs, &boxes).unwrap();
    assert!(classes.is_empty());
}

#[test]
fn filter_rejects_mismatched_shapes() {
    let p = PostProcessor::new(args(560, 560, 500_000, 250_000));
    let r = p.softmax_and_filter(&vec![vec![1_000_000]], &vec![]);
    assert_eq!(r.unwrap_err(), PipelineError::ShapeMismatch);
    let r = p.softmax_and_filter(&vec![vec![]], &vec![[0, 0, 0, 0]]);
    assert_eq!(r.unwrap_err(), PipelineError::ShapeMismatch);
}

#[test]
fn argmax_takes_first_maximum() {
    let p = PostProcessor::new(args(560, 560, 500_000, 250_000));
    assert_eq!(p.argmax_and_max(&vec![3, 9, 2, 9]), (1, 9));
    assert_eq!(p.argmax_and_max(&vec![]), (0, 0));
}

#[test]
fn iou_of_identical_and_disjoint_boxes() {
    let p = PostProcessor::new(args(560, 560, 500_000, 250_000));
    let (i, u) = p.compute_iou(&[10, 10, 4, 4], &[10, 10, 4, 4]);
    assert_eq!(i, u);
    assert_eq!(i, 64);
    let (i, u) = p.compute_iou(&[0, 0, 2, 2], &[10, 10, 2, 2]);
    assert_eq!(i, 0);
    assert_eq!(u, 32);
    // half overlap along x: intersection 1 x 2, union 3 x 2 (times four)
    let (i, u) = p.compute_iou(&[0, 0, 2, 2], &[1, 0, 2, 2]);
    assert_eq!((i, u), (8, 24));
}

#[test]
fn nms_keeps_overlapping_boxes_of_different_classes() {
    let p = PostProcessor::new(args(560, 560, 500_000, 250_000));
    let b = [500_000, 500_000, 100_000, 100_000];
    let (confs, ids, boxes) = p.non_maximum_suppression(vec![900_000, 950_000], vec![1, 2], vec![b, b]);
    assert_eq!(confs, vec![900_000, 950_000]);
    assert_eq!(ids, vec![1, 2]);
    assert_eq!(boxes, vec![b, b]);
}

#[test]
fn nms_keeps_more_confident_of_identical_boxes() {
    let p = PostProcessor::new(args(560, 560, 500_000, 999_999));
    let b = [500_000, 500_000, 100_000, 100_000];
    let (confs, ids, boxes) = p.non_maximum_suppression(vec![900_000, 950_000], vec![3, 3], vec![b, b]);
    assert_eq!(confs, vec![950_000]);
    assert_eq!(ids, vec![3]);
    assert_eq!(boxes, vec![b]);
}

#[test]
fn nms_ties_keep_earlier_candidate() {
    let p = PostProcessor::new(args(560, 560, 500_000, 250_000));
    let b = [100, 100, 50, 50];
    let (confs, ids, _) = p.non_maximum_suppression(vec![700_000, 700_000], vec![0, 0], vec![b, b]);
    assert_eq!(confs, vec![700_000]);
    assert_eq!(ids, vec![0]);
}

#[test]
fn nms_suppression_only_by_kept_boxes() {
    // b overlaps a and c; c does not overlap a. a suppresses b, so c stays.
    let p = PostProcessor::new(args(560, 560, 500_000, 300_000));
    let a = [0, 0, 10, 10];
    let b = [4, 0, 10, 10];
    let c = [8, 0, 10, 10];
    let (confs, _, boxes) = p.non_maximum_suppression(
        vec![600_000, 900_000, 800_000],
        vec![5, 5, 5],
        vec![b, a, c],
    );
    assert_eq!(confs, vec![900_000, 800_000]);
    assert_eq!(boxes, vec![a, c]);
}

#[test]
fn nms_is_idempotent_on_example() {
    let p = PostProcessor::new(args(560, 560, 500_000, 300_000));
    let confs = vec![600_000, 900_000, 800_000, 750_000];
    let ids = vec![5, 5, 5, 1];
    let boxes = vec![[4, 0, 10, 10], [0, 0, 10, 10], [8, 0, 10, 10], [4, 0, 10, 10]];
    let first = p.non_maximum_suppression(confs, ids, boxes);
    let second = p.non_maximum_suppression(first.0.clone(), first.1.clone(), first.2.clone());
    assert_eq!(first, second);
    assert_eq!(first.0.len(), 3);
}

#[test]
fn postprocess_runs_all_stages() {
    let p = PostProcessor::new(args(560, 560, 500_000, 250_000));
    let boxes = vec![
        [500_000, 500_000, 100_000, 100_000],
        [500_000, 500_000, 100_000, 100_000],
        [100_000, 200_000, 50_000, 50_000],
    ];
    let probs = vec![
        vec![100_000, 900_000],
        vec![50_000, 950_000],
        vec![600_000, 400_000],
    ];
    let (out_boxes, ids, confs) = p.postprocess(boxes, probs, 640, 480, vec![(0, 70)]).unwrap();
    assert_eq!(ids, vec![1, 0]);
    assert_eq!(confs, vec![950_000, 600_000]);
    assert_eq!(out_boxes[0], [320, 240, 64, 64]);
    assert_eq!(out_boxes[1], [64, 48, 32, 32]);
}

#[test]
fn output_shapes_are_checked() {
    assert_eq!(check_output_shape(&vec![1, 300, 4], &vec![1, 300, 91]), Ok((300, 91)));
    assert_eq!(check_output_shape(&vec![1, 300, 4], &vec![1, 200, 91]), Err(PipelineError::ShapeMismatch));
    assert_eq!(check_output_shape(&vec![300, 4], &vec![1, 300, 91]), Err(PipelineError::ShapeMismatch));
    assert_eq!(check_output_shape(&vec![1, 300, 5], &vec![1, 300, 91]), Err(PipelineError::ShapeMismatch));
}

#[test]
fn default_preprocess_config() {
    let c = PreprocessConfig::default();
    assert_eq!((c.width, c.height, c.channels), (560, 560, 3));
    assert_eq!(c.mean, [485_000, 456_000, 406_000]);
    assert_eq!(FIXED_ONE, 1_000_000);
}

#[test]
fn letterbox_image_pads_with_mean_color() {
    let cfg = PreprocessConfig { mean: [485_000, 456_000, 406_000], std: [229_000, 224_000, 225_000], height: 4, width: 4, channels: 3 };
    let p = Processor::new(cfg);
    let img = solid_image(4, 2);
    let (planes, off) = p.letterbox_image(&img).unwrap();
    assert_eq!(off, (0, 1));
    assert_eq!(planes.len(), 48);
    let fill = [123u8, 116, 103];
    for k in 0..3usize {
        for r in 0..4usize {
            for c in 0..4usize {
                let v = planes[k * 16 + r * 4 + c];
                if r == 0 || r == 3 {
                    assert_eq!(v, fill[k]);
                } else {
                    assert_eq!(v, img.data[3 * ((r - 1) * 4 + c) + k]);
                }
            }
        }
    }
}

#[test]
fn letterbox_image_downscales_by_nearest_sample() {
    let cfg = PreprocessConfig { mean: [0, 0, 0], std: [1_000_000, 1_000_000, 1_000_000], height: 2, width: 2, channels: 3 };
    let p = Processor::new(cfg);
    let img = solid_image(4, 4);
    let (planes, off) = p.letterbox_image(&img).unwrap();
    assert_eq!(off, (0, 0));
    // samples source pixels (1, 1), (3, 1), (1, 3), (3, 3)
    assert_eq!(&planes[0..4], &[11u8, 13, 31, 33]);
    assert_eq!(&planes[4..8], &[111u8, 113, 131, 133]);
    assert_eq!(&planes[8..12], &[200u8, 200, 200, 200]);
}

#[test]
fn degenerate_images_are_rejected() {
    let p = Processor::new(PreprocessConfig::default());
    let empty = RawImage { width: 0, height: 5, data: vec![] };
    assert_eq!(p.letterbox_image(&empty).unwrap_err(), PipelineError::InvalidInput);
    assert_eq!(p.preprocess(&vec![solid_image(2, 2), empty]).unwrap_err(), PipelineError::InvalidInput);
    assert_eq!(p.preprocess(&vec![]).unwrap_err(), PipelineError::InvalidInput);
}

#[test]
fn preprocess_keeps_batch_order() {
    let cfg = PreprocessConfig { mean: [0, 0, 0], std: [1_000_000, 1_000_000, 1_000_000], height: 4, width: 4, channels: 3 };
    let p = Processor::new(cfg);
    let b = p.preprocess(&vec![solid_image(4, 2), solid_image(2, 4)]).unwrap();
    assert_eq!(b.offsets, vec![(0, 1), (1, 0)]);
    assert_eq!(b.planes.len(), 2);
    assert_eq!(b.planes[0][0], 0);
    assert_eq!(b.planes[1][1], 0);
}

#[test]
fn yolo_result_is_converted_field_by_field() {
    let internal: YOLOResult<f32> = YOLOResult {
        probs: Some(Embedding { data: vec![0.25, 0.75], shape: vec![1, 2] }),
        bboxes: Some(vec![Bbox { xmin: 1.0, ymin: 2.0, width: 3.0, height: 4.0, id: 7, confidence: 0.5 }]),
        keypoints: Some(vec![vec![Point2 { x: 1.5, y: 2.5, confidence: 0.9 }]]),
        masks: None,
    };
    let out = convert_yolo_result(&internal);
    let probs = out.probs.unwrap();
    assert_eq!(probs.data, vec![0.25, 0.75]);
    assert_eq!(probs.shape, vec![1, 2]);
    assert_eq!(out.bboxes.len(), 1);
    assert_eq!(out.bboxes[0].id, 7);
    assert_eq!(out.bboxes[0].width, 3.0);
    assert_eq!(out.keypoints[0].points[0].y, 2.5);
    assert!(out.masks.is_empty());
}

#[test]
fn yolo_result_without_parts_is_empty() {
    let internal: YOLOResult<f32> = YOLOResult { probs: None, bboxes: None, keypoints: None, masks: Some(vec![vec![1, 2, 3]]) };
    let out = convert_yolo_result(&internal);
    assert!(out.probs.is_none());
    assert!(out.bboxes.is_empty());
    assert!(out.keypoints.is_empty());
    assert_eq!(out.masks, vec![vec![1u8, 2, 3]]);
}

#[test]
fn white_landscape_image_is_letterboxed() {
    let p = Processor::new(PreprocessConfig::default());
    let img = RawImage { width: 640, height: 480, data: vec![255u8; 640 * 480 * 3] };
    let b = p.preprocess(&vec![img]).unwrap();
    assert_eq!(b.offsets, vec![(0, 70)]);
    assert_eq!(b.planes.len(), 1);
    let planes = &b.planes[0];
    assert_eq!(planes.len(), 3 * 560 * 560);
    let fill = [123u8, 116, 103];
    for k in 0..3usize {
        for r in [0usize, 69, 70, 300, 489, 490, 559] {
            for c in [0usize, 1, 280, 559] {
                let v = planes[k * 560 * 560 + r * 560 + c];
                if (70..490).contains(&r) {
                    assert_eq!(v, 255);
                } else {
                    assert_eq!(v, fill[k]);
                }
            }
        }
    }
}

#[test]
fn postprocess_rejects_missing_offset() {
    let p = PostProcessor::new(args(560, 560, 500_000, 250_000));
    let r = p.postprocess(vec![[0, 0, 1, 1]], vec![vec![1_000_000]], 640, 480, vec![]);
    assert_eq!(r.unwrap_err(), PipelineError::ShapeMismatch);
}

#[test]
fn unpadded_round_trip_of_box_larger_than_image() {
    let p = PostProcessor::new(args(560, 420, 500_000, 250_000));
    let out = p.denormalize(640, 480, 0, 0, vec![[500_000, 500_000, 1_500_000, 2_000_000]]);
    assert_eq!(out, vec![[320, 240, 960, 960]]);
}
