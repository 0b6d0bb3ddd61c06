use split_aud::errors::SplitError;
use split_aud::plan::plan_split;
use split_aud::segments::{segment_label, select_segments};
use split_aud::timecode::{to_timecode, to_timecodes, Fps, Timecode};
use split_aud::trims::extract_frames;

fn tc(frame: u64, fps: Fps) -> Timecode {
    to_timecode(frame, fps).unwrap()
}

#[test]
fn frame_zero_is_midnight_for_any_framerate() {
    for fps in [
        Fps { num: 24, den: 1 },
        Fps { num: 30000, den: 1001 },
        Fps { num: 1, den: 1 },
        Fps { num: 120000, den: 1001 },
    ] {
        assert_eq!(tc(0, fps).text().as_str(), "00:00:00.000");
        assert_eq!(tc(0, fps).millis(), 0);
    }
}

#[test]
fn timecode_exact_values() {
    let fps = Fps { num: 24, den: 1 };
    assert_eq!(tc(99, fps).text().as_str(), "00:00:04.125");
    assert_eq!(tc(200, fps).text().as_str(), "00:00:08.333");
    assert_eq!(tc(299, fps).text().as_str(), "00:00:12.458");
    // One hour, one minute, one second, one millisecond.
    let fps = Fps { num: 1000, den: 1 };
    assert_eq!(tc(3661001, fps).text().as_str(), "01:01:01.001");
}

#[test]
fn timecode_truncates_to_milliseconds() {
    // One frame at 30000/1001 lasts 33.3666... ms; the text keeps the floor.
    let fps = Fps { num: 30000, den: 1001 };
    assert_eq!(tc(1, fps).text().as_str(), "00:00:00.033");
    assert_eq!(tc(1, fps).millis(), 33);
}

#[test]
fn timecode_order_follows_frame_order() {
    let fps = Fps { num: 30000, den: 1001 };
    let mut prev = tc(0, fps);
    for frame in [1u64, 2, 100, 2878, 2879, 86400, 900000] {
        let next = tc(frame, fps);
        assert!(prev.text().as_str() <= next.text().as_str());
        assert!(prev.millis() <= next.millis());
        prev = next;
    }
}

#[test]
fn timecode_refused_at_or_past_one_day() {
    let fps = Fps { num: 1000, den: 1 };
    assert!(matches!(
        to_timecode(86400000, fps),
        Err(SplitError::TimeTooLarge)
    ));
    assert!(to_timecode(86399999, fps).is_ok());
}

#[test]
fn first_cut_at_start_keeps_even_segments_but_never_the_last() {
    // Two cuts make three segments; the first cut is the absolute start.
    let cuts = vec![Timecode::from_millis(0), Timecode::from_millis(5000)];
    let plan = select_segments(&cuts);
    assert!(plan.use_first);
    assert_eq!(plan.kept, vec![1]);
    // Every 1-based segment number in 1..=3: kept exactly when its 0-based
    // index is even and it is not the last segment.
    for id in 1usize..=3 {
        let s = id - 1;
        let kept = s % 2 == 0 && s + 1 < 3;
        assert_eq!(plan.kept.contains(&id), kept);
    }
}

#[test]
fn first_cut_not_at_start_keeps_odd_segments() {
    // One cut at 00:00:02.500 makes two segments; the second is kept.
    let cuts = vec![Timecode::from_millis(2500)];
    assert_eq!(cuts[0].text().as_str(), "00:00:02.500");
    let plan = select_segments(&cuts);
    assert!(!plan.use_first);
    assert_eq!(plan.kept, vec![2]);
}

#[test]
fn parity_rule_over_many_segments() {
    // Five cuts away from the start make six segments; the odd 0-based
    // indices are kept, so the even 1-based numbers are merged.
    let cuts: Vec<Timecode> = [100u64, 200, 300, 400, 500]
        .iter()
        .map(|&ms| Timecode::from_millis(ms))
        .collect();
    let plan = select_segments(&cuts);
    assert!(!plan.use_first);
    assert_eq!(plan.kept, vec![2, 4, 6]);
    // Six cuts starting at zero make seven segments; the even 0-based
    // indices are kept, except the final segment.
    let cuts: Vec<Timecode> = [0u64, 100, 200, 300, 400, 500]
        .iter()
        .map(|&ms| Timecode::from_millis(ms))
        .collect();
    let plan = select_segments(&cuts);
    assert!(plan.use_first);
    assert_eq!(plan.kept, vec![1, 3, 5]);
}

#[test]
fn segment_labels_are_three_digit_zero_padded() {
    assert_eq!(segment_label(1).as_str(), "001");
    assert_eq!(segment_label(42).as_str(), "042");
    assert_eq!(segment_label(999).as_str(), "999");
}

#[test]
fn end_to_end_two_trims_at_24fps() {
    let script = b"Trim(clip,0,99)Trim(clip,200,299)".to_vec();
    let fps = Fps { num: 24, den: 1 };
    let frames = extract_frames(&script, 0).unwrap();
    assert_eq!(frames, vec![0, 99, 200, 299]);
    let cuts = to_timecodes(&frames, fps).unwrap();
    let texts: Vec<&str> = cuts.iter().map(|t| t.text().as_str()).collect();
    assert_eq!(
        texts,
        vec!["00:00:00.000", "00:00:04.125", "00:00:08.333", "00:00:12.458"]
    );
    let plan = select_segments(&cuts);
    assert!(plan.use_first);
    // Four cuts imply five segments; segments 1 and 3 are kept.
    assert_eq!(plan.kept, vec![1, 3]);
}

#[test]
fn whole_pipeline_in_one_call() {
    let script = b"Trim(clip,0,99)Trim(clip,200,299)".to_vec();
    let fps = Fps { num: 24, den: 1 };
    let (cuts, plan) = plan_split(&script, 0, fps).unwrap();
    let texts: Vec<&str> = cuts.iter().map(|t| t.text().as_str()).collect();
    assert_eq!(
        texts,
        vec!["00:00:00.000", "00:00:04.125", "00:00:08.333", "00:00:12.458"]
    );
    assert!(plan.use_first);
    assert_eq!(plan.kept, vec![1, 3]);
    // A cut past 24 hours is refused by the conversion stage.
    let script = b"trim(0,90000000)".to_vec();
    let fps = Fps { num: 1, den: 1 };
    assert!(matches!(
        plan_split(&script, 0, fps),
        Err(SplitError::TimeTooLarge)
    ));
}
