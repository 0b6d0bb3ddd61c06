use split_aud::errors::SplitError;
use split_aud::delay::parse_delay;
use split_aud::duration::total_frames_from_duration;
use split_aud::timecode::Fps;
use split_aud::trims::{
    extract_frames, extract_step, resolve_slices, scan_slice_pairs, scan_trim_frames,
    slices_need_total, Extraction,
};

fn bytes(s: &str) -> Vec<u8> {
    s.as_bytes().to_vec()
}

#[test]
fn trim_calls_in_text_order_both_endpoints() {
    let script = bytes("x = trim(0,10)\ny = Trim(clip, 20, 30)\nz = trim(5,15)\n");
    let frames = scan_trim_frames(&script).unwrap();
    assert_eq!(frames, vec![0, 10, 20, 30, 5, 15]);
}

#[test]
fn trim_without_identifier_with_spaces() {
    let script = bytes("trim(12, 34)");
    let frames = scan_trim_frames(&script).unwrap();
    assert_eq!(frames, vec![12, 34]);
}

#[test]
fn trim_identifier_reading_preferred() {
    // Three comma-separated fields: the first is the identifier, even when
    // it is itself a number.
    let script = bytes("Trim(1, 2, 3)");
    let frames = scan_trim_frames(&script).unwrap();
    assert_eq!(frames, vec![2, 3]);
}

#[test]
fn trim_identifier_needs_two_numbers_after_it() {
    // `a1` cannot start a numeric field, and only one number follows it.
    let script = bytes("trim(a1, 2)");
    assert_eq!(scan_trim_frames(&script).unwrap(), Vec::<u64>::new());
    assert_eq!(extract_frames(&script, 0), Err(SplitError::NoTrims));
}

#[test]
fn trim_redundant_and_overlapping_kept() {
    let script = bytes("trim(7,9)trim(7,9)");
    let frames = scan_trim_frames(&script).unwrap();
    assert_eq!(frames, vec![7, 9, 7, 9]);
}

#[test]
fn trim_number_too_large_is_fatal() {
    // The error names the position of the offending match.
    let script = bytes("x = trim(99999999999999999999999999,1)");
    assert_eq!(
        scan_trim_frames(&script),
        Err(SplitError::FrameTooLarge { at: 4 })
    );
    assert_eq!(
        extract_frames(&script, 0),
        Err(SplitError::FrameTooLarge { at: 4 })
    );
}

#[test]
fn slice_positive_end_is_exclusive() {
    let script = bytes("audio = clip[10: 20]");
    let pairs = scan_slice_pairs(&script).unwrap();
    assert!(!slices_need_total(&pairs));
    let frames = resolve_slices(&pairs, 0);
    assert_eq!(frames, vec![10, 19]);
}

#[test]
fn slice_end_zero_clamps_to_zero() {
    let script = bytes("clip[3: 0]");
    let pairs = scan_slice_pairs(&script).unwrap();
    let frames = resolve_slices(&pairs, 0);
    assert_eq!(frames, vec![3, 0]);
}

#[test]
fn slice_negative_end_counts_from_total() {
    let script = bytes("clip[0: -12]");
    let pairs = scan_slice_pairs(&script).unwrap();
    assert!(slices_need_total(&pairs));
    assert_eq!(resolve_slices(&pairs, 100), vec![0, 88]);
    // A total smaller than the magnitude clamps to frame zero.
    assert_eq!(resolve_slices(&pairs, 5), vec![0, 0]);
}

#[test]
fn slice_without_space_after_colon() {
    let script = bytes("clip[1:9]");
    let pairs = scan_slice_pairs(&script).unwrap();
    assert_eq!(resolve_slices(&pairs, 0), vec![1, 8]);
}

#[test]
fn slice_number_too_large_is_fatal() {
    let script = bytes("a = clip[0: 99999999999999999999999999]");
    assert_eq!(
        scan_slice_pairs(&script),
        Err(SplitError::FrameTooLarge { at: 4 })
    );
    assert_eq!(
        extract_frames(&script, 0),
        Err(SplitError::FrameTooLarge { at: 4 })
    );
}

#[test]
fn trim_syntax_wins_over_slice_syntax() {
    let script = bytes("trim(1,2)\nclip[3: 4]");
    assert_eq!(extract_frames(&script, 1000).unwrap(), vec![1, 2]);
}

#[test]
fn extract_step_settles_without_total_when_no_negative_end() {
    let script = bytes("clip[10: 20]");
    match extract_step(&script).unwrap() {
        Extraction::Frames(v) => assert_eq!(v, vec![10, 19]),
        Extraction::NeedTotal(_) => panic!("no negative end, the total is not needed"),
    }
}

#[test]
fn extract_step_asks_for_total_on_negative_end() {
    let script = bytes("clip[0: -1]");
    match extract_step(&script).unwrap() {
        Extraction::Frames(_) => panic!("a negative end needs the total"),
        Extraction::NeedTotal(pairs) => {
            assert_eq!(resolve_slices(&pairs, 240), vec![0, 239]);
        },
    }
}

#[test]
fn no_trims_at_all_is_fatal() {
    let script = bytes("version()\naudio = source(\"a.wav\")\n");
    assert_eq!(extract_frames(&script, 0), Err(SplitError::NoTrims));
    assert!(matches!(extract_step(&script), Err(SplitError::NoTrims)));
}

#[test]
fn empty_script_is_fatal() {
    let script = Vec::new();
    assert_eq!(extract_frames(&script, 0), Err(SplitError::NoTrims));
}

#[test]
fn delay_read_from_file_name() {
    let name = bytes("audio PCM DELAY -83ms.mka");
    assert_eq!(parse_delay(&name), Ok(-83));
    let name = bytes("audio DELAY 250ms.mka");
    assert_eq!(parse_delay(&name), Ok(250));
}

#[test]
fn delay_absent_means_zero() {
    let name = bytes("audio.mka");
    assert_eq!(parse_delay(&name), Ok(0));
}

#[test]
fn delay_first_note_wins() {
    let name = bytes("a DELAY 5ms b DELAY 7ms");
    assert_eq!(parse_delay(&name), Ok(5));
}

#[test]
fn delay_needs_ms_suffix() {
    let name = bytes("audio DELAY 83 seconds");
    assert_eq!(parse_delay(&name), Ok(0));
}

#[test]
fn delay_too_large_is_fatal() {
    let name = bytes("audio DELAY 99999999999999999999999999ms.mka");
    assert_eq!(parse_delay(&name), Err(SplitError::DelayTooLarge));
}

#[test]
fn duration_whole_seconds() {
    let fps = Fps { num: 24, den: 1 };
    assert_eq!(total_frames_from_duration(&bytes("10"), fps), Some(240));
}

#[test]
fn duration_fractional_seconds_floor() {
    let fps = Fps { num: 24, den: 1 };
    // 12.5 s at 24 fps is exactly 300 frames.
    assert_eq!(total_frames_from_duration(&bytes("12.5"), fps), Some(300));
    // 12.54 s at 24 fps is 300.96 frames, truncated to 300.
    assert_eq!(total_frames_from_duration(&bytes("12.54"), fps), Some(300));
    let ntsc = Fps { num: 30000, den: 1001 };
    // 0.033 s is less than one NTSC frame.
    assert_eq!(total_frames_from_duration(&bytes("0.033"), ntsc), Some(0));
    // 123.456 s at 30000/1001 fps is 3699.98... frames, truncated.
    assert_eq!(
        total_frames_from_duration(&bytes("123.456000"), ntsc),
        Some(3699)
    );
}

#[test]
fn duration_bare_point_forms() {
    let fps = Fps { num: 2, den: 1 };
    assert_eq!(total_frames_from_duration(&bytes(".5"), fps), Some(1));
    assert_eq!(total_frames_from_duration(&bytes("5."), fps), Some(10));
}

#[test]
fn duration_rejects_other_text() {
    let fps = Fps { num: 24, den: 1 };
    assert_eq!(total_frames_from_duration(&bytes(""), fps), None);
    assert_eq!(total_frames_from_duration(&bytes("abc"), fps), None);
    assert_eq!(total_frames_from_duration(&bytes("1.5e3"), fps), None);
    assert_eq!(total_frames_from_duration(&bytes("-4"), fps), None);
    assert_eq!(total_frames_from_duration(&bytes("."), fps), None);
}
