use flake_syncer::progress::{
    bar_text, eta, human_duration, percent_text, remaining, Progress, TimeSpan,
};

#[test]
fn eta_is_blank_before_any_progress() {
    // One sample would extrapolate from nothing; better to show nothing.
    assert_eq!(eta(&TimeSpan::from_secs(1), 0, 10), "");
}

#[test]
fn eta_is_blank_when_complete() {
    assert_eq!(eta(&TimeSpan::from_secs(1), 10, 10), "");
}

#[test]
fn eta_extrapolates_from_average_rate() {
    // 2 of 10 done in 4s → 2s per item → 16s left.
    assert_eq!(eta(&TimeSpan::from_secs(4), 2, 10), "ETA 16s");
}

#[test]
fn durations_switch_units() {
    assert_eq!(human_duration(&TimeSpan::from_millis(1500)), "1.5s");
    assert_eq!(human_duration(&TimeSpan::from_secs(42)), "42s");
    assert_eq!(human_duration(&TimeSpan::from_secs(125)), "2m05s");
}

#[test]
fn tenths_of_a_second_are_those_of_the_float() {
    for millis in (0..10_000u64).step_by(7) {
        let d = std::time::Duration::from_millis(millis);
        assert_eq!(
            human_duration(&TimeSpan::from_millis(millis)),
            format!("{:.1}s", d.as_secs_f64()),
            "{millis} ms"
        );
    }
}

#[test]
fn bars_and_percentages_are_those_of_the_float() {
    for total in 1..200usize {
        for done in 0..=total {
            let f = (done as f64 / total as f64).clamp(0.0, 1.0);
            assert_eq!(percent_text(done, total), format!("{:>3}%", (f * 100.0) as usize));
            let filled = (f * 24.0).round() as usize;
            let bar = "█".repeat(filled) + &"░".repeat(24 - filled);
            assert_eq!(bar_text(done, total), bar, "{done}/{total}");
        }
    }
}

#[test]
fn what_remains_is_in_proportion() {
    assert_eq!(remaining(&TimeSpan::from_secs(3), 3, 4), Some(TimeSpan::from_secs(1)));
    assert_eq!(remaining(&TimeSpan::from_secs(3), 0, 4), None);
    assert_eq!(remaining(&TimeSpan::from_secs(3), 4, 4), None);
}

#[test]
fn advance_accumulates_across_calls() {
    let mut p = Progress::new("test", Some(10), true);
    let now = TimeSpan::from_secs(0);
    p.advance(3, &now);
    p.advance(4, &now);
    assert_eq!(p.done, 7);
}

#[test]
fn progress_is_only_drawn_where_it_can_be_seen() {
    let now = TimeSpan::from_secs(1);
    let off = Progress::new("test", Some(10), false);
    assert_eq!(off.draw(5, &now), None);
    assert_eq!(off.finish(&now), None);
    let on = Progress::new("test", Some(10), true);
    let line = on.draw(5, &now).unwrap();
    assert!(line.contains("test"), "{line:?}");
    assert!(line.contains("5/10"), "{line:?}");
    assert!(line.contains("50%"), "{line:?}");
}

#[test]
fn estimates_are_those_of_the_float() {
    for millis in (1..200_000u64).step_by(977) {
        for total in 2..40usize {
            for done in 1..total {
                let per = std::time::Duration::from_millis(millis).as_secs_f64() / done as f64;
                let left = std::time::Duration::from_secs_f64(per * (total - done) as f64);
                let shown = human_duration(&TimeSpan::new(left.as_secs(), left.subsec_nanos()));
                assert_eq!(
                    eta(&TimeSpan::from_millis(millis), done, total),
                    format!("ETA {shown}"),
                    "{millis} ms, {done}/{total}"
                );
            }
        }
    }
}
