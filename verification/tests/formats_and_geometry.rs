use scan_control::course_motion::{
    calibration_axes, can_execute, course_path_iter, integer_iter, move_args_from_steps, MotorDir, Steps,
};
use scan_control::dispatch::div_ceil;
use scan_control::eng_fmt::{eng_prefix_for, meters_unit_for, multiplier_exponent_for_char, split_si_suffix};
use scan_control::frame_codec::{FrameData, NAN_BITS};
use scan_control::image_options::{FitType, NormType};
use scan_control::indexer::Indexer;
use scan_control::list_sync::{plan_list_sync, SyncStep};
use scan_control::scale_bar::ScaleBar;
use scan_control::scan_status::{toggle_dir, LineDir, ScanDir, ScanLine, ScanStatus};
use scan_control::stamp_name::{first_free_stamp, stamp_index_of, stamp_name_string, stamp_names};
use scan_control::view_object::{import_kind, ImportError, ObjectKind};

#[test]
fn prefixes_and_units() {
    assert_eq!(eng_prefix_for(1), Some("k"));
    assert_eq!(eng_prefix_for(-2), Some("μ"));
    assert_eq!(eng_prefix_for(0), None);
    assert_eq!(eng_prefix_for(5), None);
    assert_eq!(meters_unit_for(0), Some("m"));
    assert_eq!(meters_unit_for(-3), Some("nm"));
    assert_eq!(meters_unit_for(4), Some("Tm"));
    assert_eq!(meters_unit_for(-6), None);
    assert_eq!(multiplier_exponent_for_char('k'), Some(3));
    assert_eq!(multiplier_exponent_for_char('u'), Some(-6));
    assert_eq!(multiplier_exponent_for_char('μ'), Some(-6));
    assert_eq!(multiplier_exponent_for_char('x'), None);
}

#[test]
fn printed_prefixes_read_back() {
    for mag in -5..=4 {
        if let Some(prefix) = eng_prefix_for(mag) {
            let c = prefix.chars().next().unwrap();
            assert_eq!(multiplier_exponent_for_char(c), Some(3 * mag));
        }
    }
}

#[test]
fn typed_values_split_at_their_prefix() {
    assert_eq!(split_si_suffix("  12.5 k "), Some(("12.5".to_string(), 3)));
    assert_eq!(split_si_suffix("7"), Some(("7".to_string(), 0)));
    assert_eq!(split_si_suffix("3u"), Some(("3".to_string(), -6)));
    assert_eq!(split_si_suffix(""), None);
    assert_eq!(split_si_suffix(" \t "), None);
}

#[test]
fn frames_round_trip_through_bytes() {
    let frame = FrameData::new([2, 1], vec![1, 0x3f80_0000]);
    let bytes = frame.as_bytes();
    assert_eq!(bytes, vec![2, 0, 0, 0, 1, 0, 0, 0, 1, 0, 0, 0, 0, 0, 0x80, 0x3f]);
    let back = FrameData::from_bytes(&bytes);
    assert_eq!(back.size, [2, 1]);
    assert_eq!(back.data, vec![1, 0x3f80_0000]);
    assert_eq!(f32::from_bits(back.data[1]), 1.0f32);
}

#[test]
fn the_default_frame_is_missing_data() {
    let frame = FrameData::default();
    assert_eq!(frame.size, [2, 2]);
    assert_eq!(frame.data, vec![NAN_BITS; 4]);
    assert!(f32::from_bits(NAN_BITS).is_nan());
}

#[test]
fn imported_files_by_extension() {
    assert_eq!(import_kind(Some("gds")), Ok(ObjectKind::Gds));
    assert_eq!(import_kind(Some("GDS")), Ok(ObjectKind::Gds));
    assert_eq!(import_kind(Some("PNG")), Ok(ObjectKind::File));
    assert_eq!(import_kind(Some("jpeg")), Ok(ObjectKind::File));
    assert_eq!(import_kind(Some("jpg")), Err(ImportError::UnsupportedType));
    assert_eq!(import_kind(None), Err(ImportError::NoExtension));
}

#[test]
fn object_kinds_and_tags() {
    for kind in [ObjectKind::Gds, ObjectKind::File, ObjectKind::ScanImage, ObjectKind::ScanArea] {
        assert_eq!(ObjectKind::from_tag(kind.tag()), Some(kind));
    }
    assert_eq!(ObjectKind::ScanImage.tag(), "scanimage");
    assert_eq!(ObjectKind::from_tag("nothing"), None);
    assert!(ObjectKind::File.is_scalable());
    assert!(!ObjectKind::Gds.is_scalable());
    assert_eq!(ObjectKind::ScanArea.fixed_name(), Some("Scan Region"));
    assert_eq!(ObjectKind::Gds.fixed_name(), None);
}

#[test]
fn image_options_in_order() {
    assert_eq!(NormType::options(), vec![NormType::FullScale, NormType::StdDev]);
    assert_eq!(NormType::StdDev.label(), "Std Dev");
    assert!(NormType::StdDev.uses_std_dev());
    assert!(!NormType::FullScale.uses_std_dev());
    assert_eq!(
        FitType::options(),
        vec![FitType::MeanSubtract, FitType::LineMeanSubtract, FitType::LineFitSubtract, FitType::PlaneFitSubtract]
    );
    assert_eq!(FitType::MeanSubtract.label(), "Raw");
    assert_eq!(FitType::PlaneFitSubtract.label(), "Subtract Plane");
}

#[test]
fn scan_line_follows_the_scan() {
    assert_eq!(ScanStatus::new().scan_line([10, 20], LineDir::Forward), None);
    let status = ScanStatus { scan_dir: ScanDir::Up, line_dir: LineDir::Forward, line_number: 5, scanning: true };
    assert_eq!(status.scan_line([10, 20], LineDir::Forward), Some(ScanLine { line: 5, rows: 20, flipped: true }));
    assert_eq!(status.scan_line([10, 20], LineDir::Backward), Some(ScanLine { line: 4, rows: 20, flipped: true }));
    let done = ScanStatus { scan_dir: ScanDir::Down, line_dir: LineDir::Backward, line_number: 20, scanning: true };
    assert_eq!(done.scan_line([10, 20], LineDir::Forward), None);
    let first = ScanStatus { scan_dir: ScanDir::Down, line_dir: LineDir::Forward, line_number: 0, scanning: true };
    assert_eq!(first.scan_line([4, 8], LineDir::Backward), Some(ScanLine { line: 0, rows: 8, flipped: false }));
}

#[test]
fn line_directions_toggle() {
    let mut d = LineDir::Forward;
    toggle_dir(&mut d);
    assert_eq!(d, LineDir::Backward);
    toggle_dir(&mut d);
    assert_eq!(d, LineDir::Forward);
    assert_eq!(LineDir::options(), vec![LineDir::Forward, LineDir::Backward]);
    assert_eq!(LineDir::Backward.label(), "Backward");
}

#[test]
fn stamp_names_count_on_from_free_numbers() {
    assert_eq!(stamp_name_string("img", 0), "img");
    assert_eq!(stamp_name_string("img", 12), "img(12)");
    assert_eq!(stamp_index_of("img", "img"), Some(0));
    assert_eq!(stamp_index_of("img(3)", "img"), Some(3));
    assert_eq!(stamp_index_of("img(01)", "img"), Some(1));
    assert_eq!(stamp_index_of("img(+4)", "img"), Some(4));
    assert_eq!(stamp_index_of("img(x)", "img"), None);
    assert_eq!(stamp_index_of("other", "img"), None);
    let names: Vec<String> = ["img", "img(1)", "img(3)", "notes"].iter().map(|s| s.to_string()).collect();
    assert_eq!(first_free_stamp(&names, "img", 0), 2);
    assert_eq!(first_free_stamp(&names, "img", 3), 4);
    assert_eq!(stamp_names(&names, "img", 3), vec!["img(2)", "img(4)", "img(5)"]);
    assert_eq!(stamp_names(&[], "scan", 2), vec!["scan", "scan(1)"]);
}

#[test]
fn motor_commands_for_a_move() {
    assert_eq!(
        move_args_from_steps(Steps { x: 3, y: -2 }),
        [Some((MotorDir::XPos, 3)), Some((MotorDir::YNeg, 2))]
    );
    assert_eq!(move_args_from_steps(Steps { x: 0, y: 70000 }), [None, Some((MotorDir::YPos, 4464))]);
}

#[test]
fn the_staircase_to_a_target() {
    assert_eq!(integer_iter(-3), vec![-1, -2, -3]);
    assert_eq!(integer_iter(0), Vec::<i32>::new());
    assert_eq!(course_path_iter(Steps { x: 2, y: -1 }), vec![(1, 0), (2, 0), (2, -1)]);
    assert_eq!(course_path_iter(Steps { x: 0, y: 0 }), vec![]);
}

#[test]
fn dividing_rounds_up() {
    assert_eq!(div_ceil(10, 3), 4);
    assert_eq!(div_ceil(9, 3), 3);
    assert_eq!(div_ceil(0, 5), 0);
    assert_eq!(div_ceil(1, 1), 1);
}

#[test]
fn indexer_paths() {
    let mut ind = Indexer::new();
    assert!(ind.is_empty());
    ind.push(1);
    ind.push_front(7);
    ind.push(2);
    assert_eq!(ind.pop(), 2);
    assert_eq!(ind.pop(), 1);
    assert_eq!(ind.pop(), 7);
    assert!(ind.is_empty());
}

#[test]
fn list_sync_plan() {
    let steps = plan_list_sync(&vec![1, 2, 3], &vec![(2, 0), (4, 1), (3, 2)]);
    assert_eq!(
        steps,
        vec![
            SyncStep::Remove { id: 4 },
            SyncStep::Insert { id: 1, index: 0 },
            SyncStep::Reindex { id: 2, index: 1 },
            SyncStep::Refresh { id: 2, index: 1 },
            SyncStep::Refresh { id: 3, index: 2 },
        ]
    );
}

#[test]
fn list_sync_uses_the_last_occurrence() {
    let steps = plan_list_sync(&vec![5, 6, 5], &vec![]);
    assert_eq!(steps, vec![SyncStep::Insert { id: 6, index: 1 }, SyncStep::Insert { id: 5, index: 2 }]);
}

#[test]
fn scale_bar_is_made() {
    let _bar = ScaleBar::new();
}

#[test]
fn line_ends_update_the_scan_status() {
    let status = ScanStatus::new();
    let (next, changed, sent) = status.line_finished(Some(LineDir::Backward), 3);
    assert!(changed);
    assert_eq!(sent, Some(LineDir::Backward));
    assert_eq!(next, ScanStatus { scan_dir: ScanDir::Down, line_dir: LineDir::Backward, line_number: 3, scanning: true });
    let stopped = ScanStatus { scanning: false, ..next };
    let (same, changed, sent) = stopped.line_finished(Some(LineDir::Backward), 3);
    assert!(!changed);
    assert_eq!(same, stopped);
    assert_eq!(sent, Some(LineDir::Backward));
    assert_eq!(status.line_finished(None, 9), (status, false, None));
    assert!(can_execute(Steps { x: 0, y: -1 }));
    assert!(!can_execute(Steps { x: 0, y: 0 }));
    assert_eq!(calibration_axes(Steps { x: 4, y: 0 }), (true, false));
    assert_eq!(calibration_axes(Steps { x: 0, y: 2 }), (false, true));
    assert_eq!(calibration_axes(Steps { x: 1, y: 2 }), (false, false));
}

#[test]
fn empty_downloads_become_the_placeholder() {
    let empty = FrameData::new([0, 5], vec![]).or_placeholder();
    assert_eq!(empty.size, [2, 2]);
    assert_eq!(empty.data, vec![NAN_BITS; 4]);
    let full = FrameData::new([1, 2], vec![7, 8]).or_placeholder();
    assert_eq!(full.size, [1, 2]);
    assert_eq!(full.data, vec![7, 8]);
}
