//! Calibration, recognition and the frame pipeline.
use deltax2sort::app_config::{AppConfig, VisionConfig};
use deltax2sort::float::{Float32, Float64};
use deltax2sort::hardware::MockCamera;
use deltax2sort::vision::calibration::{CalibrationParams, CoordinateTransformer};
use deltax2sort::vision::catalog::{dot, normalize, Catalog};
use deltax2sort::vision::classifier::{BrickLinkClient, ColorShapeClassifier};
use deltax2sort::vision::detector::{BlobDetector, Contour};
use deltax2sort::vision::embedder::{preprocess, Recognizer};
use deltax2sort::vision::pipeline::{
    crop_roi, display_size, overlay_color, to_label, Bgr, LoopEvent, LoopStep, VisionLoop, VisionPipeline,
    DISPLAY_MAX_H, DISPLAY_MAX_W,
};
use deltax2sort::vision::{DetectedObject, Rect};

fn f(x: f32) -> Float32 {
    Float32 { bits: x.to_bits() }
}

fn v(x: Float32) -> f32 {
    f32::from_bits(x.bits)
}

fn d(x: f64) -> Float64 {
    Float64 { bits: x.to_bits() }
}

fn fs(xs: &[f32]) -> Vec<Float32> {
    xs.iter().map(|x| f(*x)).collect()
}

fn assert_close(a: Float32, b: f32) {
    assert!((v(a) - b).abs() < 1e-3, "expected {b}, got {}", v(a));
}

// --- Calibration ---

fn upright(width: u32, height: u32, scale: f32) -> CoordinateTransformer {
    let params = CalibrationParams::centered(width, height, f(scale));
    let (sin, cos) = v(params.rotation).sin_cos();
    CoordinateTransformer::new(params, f(sin), f(cos))
}

#[test]
fn image_center_maps_to_robot_origin() {
    let t = upright(1280, 720, 0.5);
    let p = t.pixel_to_world(f(640.0), f(360.0));
    assert_close(p.x, 0.0);
    assert_close(p.y, 0.0);
}

#[test]
fn scale_is_applied() {
    let t = upright(1280, 720, 0.5);
    // 100 px right of center = 50 mm in robot X.
    let p = t.pixel_to_world(f(740.0), f(360.0));
    assert_close(p.x, 50.0);
    assert_close(p.y, 0.0);
}

#[test]
fn rotation_is_applied() {
    let params = CalibrationParams {
        scale_x: f(1.0),
        scale_y: f(1.0),
        offset_x: f(0.0),
        offset_y: f(0.0),
        rotation: f(std::f32::consts::FRAC_PI_2), // 90 degrees
    };
    let (sin, cos) = v(params.rotation).sin_cos();
    let t = CoordinateTransformer::new(params, f(sin), f(cos));
    // Pixel +X axis maps to world +Y under a 90 degree rotation.
    let p = t.pixel_to_world(f(100.0), f(0.0));
    assert_close(p.x, 0.0);
    assert_close(p.y, 100.0);
}

#[test]
fn the_transform_rounds_as_the_machine_does() {
    let (w, h, s) = (1279u32, 721u32, 0.371f32);
    let t = upright(w, h, s);
    for (px, py) in [(0.0f32, 0.0f32), (12.5, 700.25), (639.5, 360.5), (1e6, -3.0)] {
        let p = t.pixel_to_world(f(px), f(py));
        let (sx, sy) = (px * s, py * s);
        let ox = -(w as f32) * s / 2.0;
        let oy = -(h as f32) * s / 2.0;
        assert_eq!(v(p.x), sx * 1.0 - sy * 0.0 + ox);
        assert_eq!(v(p.y), sx * 0.0 + sy * 1.0 + oy);
        assert_eq!(v(p.z), 0.0);
    }
}

#[test]
fn the_image_center_is_exactly_the_origin() {
    for (w, h, s) in [(1280, 720, 0.5), (1279, 721, 0.371), (1, 7, 1e-44), (640, 480, 1e30)] {
        let t = upright(w, h, s);
        let p = t.pixel_to_world(f(w as f32 / 2.0), f(h as f32 / 2.0));
        assert_eq!((v(p.x), v(p.y)), (0.0, 0.0), "{w}x{h} at {s}");
    }
}

// --- Catalogue ---

// Three orthogonal unit directions stand in for three visually distinct
// object classes; a query near one of them must recognise it.
fn catalog_of_three() -> Catalog {
    let mut c = Catalog::new();
    c.add("red".to_string(), &fs(&[1.0, 0.0, 0.0]));
    c.add("green".to_string(), &fs(&[0.0, 1.0, 0.0]));
    c.add("blue".to_string(), &fs(&[0.0, 0.0, 1.0]));
    c
}

#[test]
fn classifies_the_nearest_class_above_threshold() {
    let c = catalog_of_three();
    // Close to "red" (small perturbation): recognised.
    let (class, sim) = c.classify(&fs(&[0.95, 0.1, 0.05]), f(0.8));
    assert_eq!(class.as_deref(), Some("red"));
    let sim = v(sim);
    assert!(sim > 0.8, "similarity {sim}");
}

#[test]
fn unrecognised_when_below_threshold() {
    let c = catalog_of_three();
    // Equidistant-ish from all three axes: nearest similarity ~0.577 < 0.8.
    let (class, _) = c.classify(&fs(&[1.0, 1.0, 1.0]), f(0.8));
    assert!(class.is_none(), "diffuse embedding must be unrecognised");
}

#[test]
fn empty_catalog_recognises_nothing() {
    let (class, sim) = Catalog::new().classify(&fs(&[1.0, 0.0, 0.0]), f(0.0));
    assert!(class.is_none());
    assert_eq!(sim, f(0.0));
}

#[test]
fn nearest_returns_classes_by_descending_similarity() {
    let c = catalog_of_three();
    let near = c.nearest(&fs(&[0.9, 0.4, 0.0]), 3);
    assert_eq!(near.len(), 3);
    assert_eq!(near[0].0, "red"); // most similar
    assert_eq!(near[1].0, "green");
    assert!(near[1].1.le(near[0].1) && near[2].1.le(near[1].1));
}

#[test]
fn classes_are_distinct_and_sorted() {
    let mut c = Catalog::new();
    c.add("brick".to_string(), &fs(&[1.0, 0.0]));
    c.add("plate".to_string(), &fs(&[0.0, 1.0]));
    c.add("brick".to_string(), &fs(&[0.9, 0.1])); // second example of an existing class
    assert_eq!(c.len(), 3);
    assert_eq!(c.classes(), vec!["brick".to_string(), "plate".to_string()]);
}

#[test]
fn class_names_sort_as_strings_do() {
    let names = ["b", "a", "", "ab", "é", "z", "Z", "aa", "a", "\u{10000}", "\u{ffff}", "b"];
    let mut c = Catalog::new();
    for name in names {
        c.add(name.to_string(), &fs(&[1.0]));
    }
    let mut expected: Vec<String> = names.iter().map(|n| n.to_string()).collect();
    expected.sort();
    expected.dedup();
    assert_eq!(c.classes(), expected);
    assert_eq!(Recognizer::new(c, f(0.5)).class_count(), expected.len());
}

#[test]
fn equal_similarities_keep_the_order_of_teaching() {
    let mut c = Catalog::new();
    for name in ["first", "second", "third"] {
        c.add(name.to_string(), &fs(&[2.0, 0.0]));
    }
    c.add("best".to_string(), &fs(&[1.0, 1.0]));
    let near = c.nearest(&fs(&[1.0, 1.0]), 10);
    let names: Vec<&str> = near.iter().map(|(n, _)| n.as_str()).collect();
    assert_eq!(names, ["best", "first", "second", "third"]);
    assert_eq!(c.nearest(&fs(&[1.0, 1.0]), 2).len(), 2);
    assert!(c.nearest(&fs(&[1.0, 1.0]), 0).is_empty());
    assert!(!c.is_empty() && Catalog::new().is_empty());
}

#[test]
fn similarities_are_what_the_machine_computes() {
    let a = [0.3f32, -1.75, 1e-3, 42.0, -0.0];
    let b = [1.5f32, 0.25, -7.0, 0.125];
    let norm = a.iter().map(|x| x * x).sum::<f32>().sqrt();
    let expected: Vec<u32> = a.iter().map(|x| (x / norm).to_bits()).collect();
    let ours: Vec<u32> = normalize(&fs(&a)).iter().map(|x| x.bits).collect();
    assert_eq!(ours, expected);
    let expected = a.iter().zip(b).map(|(x, y)| x * y).sum::<f32>();
    assert_eq!(dot(&fs(&a), &fs(&b)).bits, expected.to_bits());
    let none: [f32; 0] = [];
    assert_eq!(
        dot(&fs(&none), &fs(&none)).bits,
        none.iter().sum::<f32>().to_bits()
    );
    // A zero vector has no direction.
    assert_eq!(normalize(&fs(&[0.0, 0.0])), fs(&[0.0, 0.0]));
    let (class, sim) = catalog_of_three().classify(&fs(&[0.0, 0.0, 0.0]), f(0.1));
    assert!(class.is_none());
    assert_eq!(sim, f(0.0));
}

#[test]
fn recognition_by_threshold() {
    let rec = Recognizer::new(catalog_of_three(), f(0.8));
    assert_eq!(rec.classify(&fs(&[0.0, 5.0, 0.1])).as_deref(), Some("green"));
    assert_eq!(rec.classify(&fs(&[1.0, 1.0, 1.0])), None);
    assert_eq!(rec.class_count(), 3);
}

#[test]
fn stubs_recognise_nothing() {
    let (class, confidence) = ColorShapeClassifier::new().classify();
    assert!(class.is_none());
    assert_eq!(confidence, f(0.0));
    assert_eq!(BrickLinkClient::new().search_part("3001"), "Part 3001: details...");
}

// --- Embedder input ---

#[test]
fn preprocess_produces_a_chw_tensor_of_the_right_size() {
    // An 8x8 picture of mid-grey → 3*8*8 values.
    let data = preprocess(&[128; 3 * 8 * 8]);
    assert_eq!(data.len(), 3 * 8 * 8);
    // Mid-grey (128/255 ≈ 0.502) after ImageNet norm stays within a sane
    // range for every channel.
    assert!(data.iter().all(|x| v(*x).abs() < 5.0), "values out of range");
}

#[test]
fn preprocess_computes_what_the_machine_does() {
    const MEAN: [f32; 3] = [0.485, 0.456, 0.406];
    const STD: [f32; 3] = [0.229, 0.224, 0.225];
    let s = 16usize;
    let bytes: Vec<u8> = (0..3 * s * s).map(|i| (i * 37 % 256) as u8).collect();
    let ours = preprocess(&bytes);
    for y in 0..s {
        for x in 0..s {
            for c in 0..3 {
                let value = bytes[(y * s + x) * 3 + c] as f32 / 255.0;
                let expected = (value - MEAN[c]) / STD[c];
                assert_eq!(ours[c * s * s + y * s + x].bits, expected.to_bits());
            }
        }
    }
    assert!(preprocess(&[]).is_empty());
}

// --- Detection ---

fn contour(area: f64, x: i32, y: i32, w: i32, h: i32) -> Contour {
    Contour { area: d(area), rect: Rect::new(x, y, w, h) }
}

#[test]
fn contours_are_filtered_by_area() {
    let detector = BlobDetector::new();
    let contours = vec![
        contour(499.99, 0, 0, 1, 1),
        contour(500.0, 1, 2, 3, 4),
        contour(10000.0, 5, 6, 7, 8),
        contour(10000.01, 0, 0, 1, 1),
        contour(f64::NAN, 0, 0, 1, 1),
    ];
    let objects = detector.detect(&contours, 11, 22);
    assert_eq!(objects.len(), 2);
    assert_eq!(objects[0].rect, Rect::new(1, 2, 3, 4));
    assert_eq!(objects[1].rect, Rect::new(5, 6, 7, 8));
    for o in &objects {
        assert_eq!((o.id, o.timestamp, o.seen_at), (0, 11, 22));
        assert!(o.world_pos.is_none() && o.class.is_none());
        assert_eq!(o.confidence, f(0.0));
    }
    let cfg = VisionConfig { invert: false, ..VisionConfig::default() };
    assert!(!BlobDetector::from_config(&cfg).invert);
    assert!(detector.invert);
    assert_eq!(detector.threshold, d(60.0));
}

/// Vision config for light objects on a dark background.
fn light_object_config() -> VisionConfig {
    VisionConfig { invert: false, ..VisionConfig::default() }
}

#[test]
fn white_rect_yields_one_detection() {
    let detector = BlobDetector::from_config(&light_object_config());
    let contours = drawn(Rect::new(100, 200, 40, 40));
    let objects = detector.detect(&contours, 0, 0);
    assert_eq!(objects.len(), 1);
    let r = objects[0].rect;
    let center = (r.x + r.width / 2, r.y + r.height / 2);
    assert!((center.0 - 120).abs() <= 2, "center x: {}", center.0);
    assert!((center.1 - 220).abs() <= 2, "center y: {}", center.1);
}

#[test]
fn empty_frame_yields_no_detections() {
    let detector = BlobDetector::from_config(&light_object_config());
    assert!(detector.detect(&Vec::new(), 0, 0).is_empty());
}

// --- Pipeline ---

const FRAME: u64 = 33_000_000;

/// Config matching a 640x480 synthetic camera, 0.5 mm/px, belt stopped.
fn test_config() -> AppConfig {
    let mut cfg = AppConfig::default();
    cfg.vision.invert = false;
    cfg.vision.mm_per_px = f(0.5);
    cfg.conveyor.speed_mm_s = f(0.0);
    cfg
}

/// The contour of a rectangle that was drawn into a frame.
fn drawn(rect: Rect) -> Vec<Contour> {
    let area = ((rect.width - 1) * (rect.height - 1)) as f64;
    vec![Contour { area: d(area), rect }]
}

fn unrecognised(_: &Rect) -> Option<Vec<Float32>> {
    None
}

fn process(
    pipeline: &mut VisionPipeline,
    contours: &Vec<Contour>,
    belt_running: bool,
) -> Vec<DetectedObject> {
    pipeline.process_frame(contours, 0, 0, FRAME, belt_running, unrecognised)
}

#[test]
fn one_blob_yields_exactly_one_pick_ready_object_with_mm_position() {
    let mut pipeline = VisionPipeline::new(&test_config(), 640, 480);
    // Blob center at pixel (420, 120); centered transform at 0.5 mm/px:
    // world = ((420-320)*0.5, (120-240)*0.5) = (50, -60) mm.
    let frame = drawn(Rect::new(400, 100, 40, 40));

    let mut emissions = Vec::new();
    for _ in 0..10 {
        emissions.push(process(&mut pipeline, &frame, true));
    }

    let total: usize = emissions.iter().map(Vec::len).sum();
    assert_eq!(total, 1, "one physical object = one pick-ready emission");
    assert!(emissions[0].is_empty() && emissions[1].is_empty());
    let obj = &emissions[2][0]; // ready on the MIN_SEEN_FRAMES-th frame
    let pos = obj.world_pos.expect("world_pos must be set");
    assert!((v(pos.x) - 50.0).abs() < 1.0, "x: {}", v(pos.x));
    assert!((v(pos.y) + 60.0).abs() < 1.0, "y: {}", v(pos.y));
    assert_eq!(v(pos.z), 0.0, "vision must always report the belt plane");
}

#[test]
fn empty_frames_yield_no_objects() {
    let mut pipeline = VisionPipeline::new(&test_config(), 640, 480);
    for _ in 0..5 {
        assert!(process(&mut pipeline, &Vec::new(), true).is_empty());
    }
}

#[test]
fn mock_camera_frames_drive_the_pipeline_to_a_pick() {
    let cfg = AppConfig::default();
    let mut cam = MockCamera::new(cfg.camera.width, cfg.camera.height, cfg.camera.fps, cfg.vision.invert);
    let (w, h) = cam.resolution();
    let mut pipeline = VisionPipeline::new(&cfg, w, h);

    let mut picks = 0usize;
    for _ in 0..6 {
        let frame = cam.get_frame().unwrap();
        let contours = frame.blob.map(drawn).unwrap_or_default();
        let ready = process(&mut pipeline, &contours, false);
        for obj in &ready {
            let p = obj.world_pos.expect("pick must carry a world position");
            // Centred blob → robot origin (within a couple of mm).
            assert!(v(p.x).abs() < 5.0 && v(p.y).abs() < 5.0, "world pos: {p:?}");
        }
        picks += ready.len();
    }
    assert_eq!(picks, 1, "the mock part is picked exactly once");
}

#[test]
fn stopped_belt_does_not_re_emit_a_stationary_object() {
    // Non-zero configured belt speed, but the belt is NOT running. A part
    // that stays put must be picked exactly once — with drift applied it
    // would leave its track after ~1 s and be re-emitted repeatedly.
    let mut cfg = test_config();
    cfg.conveyor.speed_mm_s = f(100.0); // nominal speed, belt stopped below
    let mut pipeline = VisionPipeline::new(&cfg, 640, 480);
    let frame = drawn(Rect::new(300, 220, 40, 40));

    let total: usize = (0..60)
        .map(|_| process(&mut pipeline, &frame, false).len()) // belt stopped
        .sum();
    assert_eq!(total, 1, "stationary part emitted once while belt stopped");
}

#[test]
fn a_running_belt_carries_the_prediction() {
    let mut cfg = test_config();
    cfg.conveyor.speed_mm_s = f(1000.0);
    let mut pipeline = VisionPipeline::new(&cfg, 640, 480);
    process(&mut pipeline, &drawn(Rect::new(300, 100, 40, 40)), true);
    process(&mut pipeline, &Vec::new(), true);
    let dt = std::time::Duration::from_nanos(FRAME).as_secs_f32();
    let shift = 1000.0f32 * dt / 0.5;
    assert_eq!(v(pipeline.tracker.tracks[0].center.1), 120.0 + shift);
    let long = 3_500_000_123u64;
    pipeline.process_frame(&Vec::new(), 0, 0, long, true, unrecognised);
    let dt = std::time::Duration::from_nanos(long).as_secs_f32();
    assert_eq!(
        v(pipeline.tracker.tracks[0].center.1),
        120.0 + shift + 1000.0f32 * dt / 0.5
    );
}

#[test]
fn recognised_objects_carry_their_class() {
    let mut pipeline = VisionPipeline::new(&test_config(), 640, 480);
    pipeline.set_recognizer(Recognizer::new(catalog_of_three(), f(0.8)));
    let mut frame = drawn(Rect::new(100, 100, 40, 40));
    frame.extend(drawn(Rect::new(300, 100, 40, 40)));
    frame.extend(drawn(Rect::new(500, 100, 40, 40)));
    let embed = |r: &Rect| match r.x {
        100 => Some(fs(&[0.0, 0.0, 3.0])),
        300 => Some(fs(&[1.0, 1.0, 1.0])),
        _ => None, // no embedding: recognition failed
    };
    let mut ready = Vec::new();
    for n in 0..3 {
        ready = pipeline.process_frame(&frame, 5, 7 + n, FRAME, false, embed);
    }
    let classes: Vec<Option<&str>> = ready.iter().map(|o| o.class.as_deref()).collect();
    assert_eq!(classes, [Some("blue"), None, None]);
    assert!(ready.iter().all(|o| o.seen_at == 9 && o.timestamp == 5));
    let plan = pipeline.overlay_plan();
    assert_eq!(plan.len(), 3);
    assert_eq!(plan[0].color, Bgr { blue: 0, green: 255, red: 0 });
    assert_eq!(plan[0].label.as_deref(), Some("blue"));
    assert_eq!(plan[0].label_at, (100, 92));
    assert_eq!(plan[1].color, Bgr { blue: 0, green: 255, red: 255 });
    assert_eq!(plan[1].label, None);
    assert_eq!(overlay_color(&None), Bgr { blue: 0, green: 255, red: 255 });
}

#[test]
fn what_is_not_recognised_is_put_up_for_labelling() {
    let mut pipeline = VisionPipeline::new(&test_config(), 640, 480);
    pipeline.set_recognizer(Recognizer::new(catalog_of_three(), f(0.8)));
    let mut frame = drawn(Rect::new(100, 100, 40, 40));
    frame.extend(drawn(Rect::new(300, 100, 40, 40)));
    frame.extend(drawn(Rect::new(500, 100, 40, 40)));
    let embed = |r: &Rect| if r.x == 300 { Some(fs(&[0.0, 0.0, 3.0])) } else { None };
    let mut ready = Vec::new();
    for _ in 0..3 {
        ready = pipeline.process_frame(&frame, 0, 0, FRAME, false, embed);
    }
    assert_eq!(
        to_label(&ready),
        [Rect::new(100, 100, 40, 40), Rect::new(500, 100, 40, 40)]
    );
    assert!(to_label(&Vec::new()).is_empty());
}

#[test]
fn a_stopped_belt_ignores_speed_and_time() {
    let mut fast = test_config();
    fast.conveyor.speed_mm_s = f(1e6);
    let mut a = VisionPipeline::new(&test_config(), 640, 480);
    let mut b = VisionPipeline::new(&fast, 640, 480);
    for n in 0..8u64 {
        let frame = drawn(Rect::new(300 + n as i32, 220, 40, 40));
        let x = a.process_frame(&frame, 0, n, FRAME, false, unrecognised);
        let y = b.process_frame(&frame, 0, n, FRAME * (n + 2), false, unrecognised);
        let seen = |r: &[DetectedObject]| -> Vec<_> {
            r.iter().map(|o| (o.id, o.rect, o.world_pos)).collect()
        };
        assert_eq!(seen(&x), seen(&y));
    }
}

#[test]
fn labels_stay_on_the_picture() {
    let mut pipeline = VisionPipeline::new(&test_config(), 640, 480);
    let frame: Vec<Contour> = [(0, 5), (100, 19), (200, 20), (300, 21)]
        .iter()
        .flat_map(|(x, y)| drawn(Rect::new(*x, *y, 40, 40)))
        .collect();
    process(&mut pipeline, &frame, false);
    let at: Vec<(i32, i32)> = pipeline.overlay_plan().iter().map(|o| o.label_at).collect();
    assert_eq!(at, [(0, 12), (100, 12), (200, 12), (300, 13)]);
}

#[test]
fn crops_are_clamped_to_the_frame() {
    let crop = |r: Rect| crop_roi(640, 480, &r);
    assert_eq!(crop(Rect::new(10, 20, 30, 40)), Some(Rect::new(10, 20, 30, 40)));
    assert_eq!(crop(Rect::new(-5, -6, 30, 40)), Some(Rect::new(0, 0, 25, 34)));
    assert_eq!(crop(Rect::new(-5, -6, 700, 500)), Some(Rect::new(0, 0, 640, 480)));
    assert_eq!(crop(Rect::new(630, 470, 30, 40)), Some(Rect::new(630, 470, 10, 10)));
    assert_eq!(crop(Rect::new(640, 0, 30, 40)), None);
    assert_eq!(crop(Rect::new(0, 0, 0, 40)), None);
    assert_eq!(crop(Rect::new(0, 0, 5, -1)), None);
    assert_eq!(crop(Rect::new(i32::MIN, 0, i32::MAX, 5)), None);
    assert_eq!(crop(Rect::new(1, 0, i32::MAX, 5)), Some(Rect::new(1, 0, 639, 5)));
    let small = |r: Rect| crop_roi(100, 100, &r);
    assert_eq!(small(Rect::new(-10, -5, 20, 20)), Some(Rect::new(0, 0, 10, 15)));
    assert_eq!(small(Rect::new(90, 95, 20, 20)), Some(Rect::new(90, 95, 10, 5)));
    assert_eq!(small(Rect::new(-30, 0, 20, 20)), None);
    assert_eq!(small(Rect::new(-20, 0, 20, 20)), None);
    assert_eq!(small(Rect::new(0, -19, 20, 20)), Some(Rect::new(0, 0, 20, 1)));
}

#[test]
fn a_crop_is_what_the_frame_shows() {
    for x in -8..8 {
        for w in -1..8 {
            let r = Rect::new(x, -2, w, 5);
            let columns: Vec<i32> = (0..6).filter(|px| x <= *px && *px < x + w).collect();
            match crop_roi(6, 4, &r) {
                Some(c) => {
                    assert_eq!((c.x..c.x + c.width).collect::<Vec<_>>(), columns, "{r:?}");
                    assert_eq!((c.y, c.height), (0, 3));
                }
                None => assert!(columns.is_empty(), "{r:?}"),
            }
        }
    }
}

#[test]
fn display_sizes_fit_and_never_grow() {
    let fit = |w, h| display_size(w, h, DISPLAY_MAX_W, DISPLAY_MAX_H);
    assert_eq!(fit(1280, 720), Some((640, 360)));
    assert_eq!(fit(640, 480), Some((640, 480)));
    assert_eq!(fit(320, 200), Some((320, 200)));
    assert_eq!(fit(1, 100_000), Some((1, 480)));
    assert_eq!(fit(0, 5), None);
    assert_eq!(fit(5, -1), None);
    for (w, h) in [(1920, 1080), (1000, 999), (641, 481), (3, 4000), (i32::MAX, 7)] {
        let scale = (640f64 / w as f64).min(480f64 / h as f64).min(1.0);
        let expected = (
            ((w as f64 * scale).round() as i32).max(1),
            ((h as f64 * scale).round() as i32).max(1),
        );
        assert_eq!(fit(w, h), Some(expected), "{w}x{h}");
        assert!(expected.0 <= 640 && expected.1 <= 480);
    }
}

#[test]
fn the_vision_loop_goes_on_backs_off_and_ends() {
    let mut l = VisionLoop::new(1000);
    assert_eq!(l.on_event(LoopEvent::Captured { now: 1500 }), LoopStep::Process { dt: 500 });
    assert_eq!(l.on_event(LoopEvent::Processed), LoopStep::Capture);
    assert_eq!(
        l.on_event(LoopEvent::CaptureFailed),
        LoopStep::CaptureAfter { millis: 500 }
    );
    assert_eq!(
        l.on_event(LoopEvent::ProcessingFailed),
        LoopStep::CaptureAfter { millis: 500 }
    );
    assert_eq!(l.on_event(LoopEvent::Captured { now: 1400 }), LoopStep::Process { dt: 0 });
    assert_eq!(l.on_event(LoopEvent::Captured { now: 1402 }), LoopStep::Process { dt: 2 });
    assert_eq!(
        l.on_event(LoopEvent::ShutdownChanged { gone: false, requested: false }),
        LoopStep::Capture
    );
    assert_eq!(
        l.on_event(LoopEvent::ShutdownChanged { gone: false, requested: true }),
        LoopStep::Stop
    );
    assert_eq!(
        l.on_event(LoopEvent::ShutdownChanged { gone: true, requested: false }),
        LoopStep::Stop
    );
    assert_eq!(l.on_event(LoopEvent::ChannelClosed), LoopStep::Stop);
    assert_eq!(l.on_event(LoopEvent::ProcessingDied), LoopStep::Die);
}
