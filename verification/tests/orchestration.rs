use subtrans::orchestrator::{
    batch_call_result, plan_batch, BatchOrchestrator, OrchestratorEvent, OrchestratorStep,
    TranslationBatchReport, TranslationSettings,
};

fn make_entries(n: usize) -> Vec<(usize, String)> {
    (1..=n).map(|i| (i, format!("line {}", i))).collect()
}

fn echo_translate(batch: &Vec<(usize, String)>) -> Vec<(usize, String)> {
    batch.iter().map(|(i, t)| (*i, format!("T:{}", t))).collect()
}

/// Drives the orchestrator state machine with a synchronous mock transport.
fn run<F>(
    entries: &Vec<(usize, String)>,
    settings: &TranslationSettings,
    transport: &mut F,
) -> (Result<TranslationBatchReport, String>, Vec<OrchestratorEvent>)
where
    F: FnMut(usize, &Vec<(usize, String)>) -> Result<Vec<(usize, String)>, String>,
{
    let mut orch = BatchOrchestrator::new(entries, settings);
    let mut events = Vec::new();
    loop {
        let (evs, step) = orch.advance();
        events.extend(evs);
        match step {
            OrchestratorStep::Dispatch(idxs) => {
                let mut outcomes = Vec::new();
                for i in &idxs {
                    outcomes.push(transport(*i, orch.batch_entries(*i)));
                }
                orch.record_group(&outcomes);
            }
            OrchestratorStep::Backoff(i) => {
                let outcome = transport(i, orch.batch_entries(i));
                orch.record_retry(&outcome);
            }
            OrchestratorStep::Proceed => {}
            OrchestratorStep::Finished => break,
        }
    }
    (orch.into_report(), events)
}

fn default_settings() -> TranslationSettings {
    TranslationSettings {
        batch_size: 50,
        parallel_requests: 1,
        auto_continue: true,
        continue_on_error: false,
        max_retries: 3,
        streaming: false,
    }
}

#[test]
fn test_all_batched_success() {
    let entries = make_entries(5);
    let settings = TranslationSettings {
        batch_size: 2,
        ..default_settings()
    };
    let (report, events) = run(&entries, &settings, &mut |_, batch| Ok(echo_translate(batch)));
    let report = report.unwrap();
    assert_eq!(report.error_message, None);
    assert_eq!(report.progress.total_entries, 5);
    assert_eq!(report.progress.translated_entries, 5);
    assert!(!report.progress.is_partial);
    assert!(!report.progress.can_continue);
    assert_eq!(report.translations.len(), 5);
    assert_eq!(report.translations[0], (1, "T:line 1".to_string()));
    assert_eq!(report.translations[4], (5, "T:line 5".to_string()));
    let progress_events = events
        .iter()
        .filter(|e| matches!(e, OrchestratorEvent::Progress(_)))
        .count();
    assert_eq!(progress_events, 3);
}

#[test]
fn test_fail_fast_bounded_attempts() {
    // A permanently failing transport is retried at most max_retries times
    // beyond the first attempt, then the run stops with an error and a
    // partial, resumable-by-the-caller progress report.
    let entries = make_entries(4);
    let settings = TranslationSettings {
        batch_size: 2,
        max_retries: 2,
        continue_on_error: false,
        ..default_settings()
    };
    let mut attempts = 0usize;
    let (report, events) = run(&entries, &settings, &mut |_, _| {
        attempts += 1;
        Err("boom".to_string())
    });
    let report = report.unwrap();
    assert_eq!(attempts, 3); // one send plus two retries for the first batch
    assert!(report.error_message.is_some());
    assert!(report
        .error_message
        .unwrap()
        .contains("Translation failed after 2 retries: boom"));
    assert!(report.progress.is_partial);
    assert_eq!(report.progress.translated_entries, 0);
    let retries = events
        .iter()
        .filter(|e| matches!(e, OrchestratorEvent::Retry(_)))
        .count();
    assert_eq!(retries, 2);
    let errors = events
        .iter()
        .filter(|e| matches!(e, OrchestratorEvent::Error(_)))
        .count();
    assert_eq!(errors, 1);
}

#[test]
fn test_retry_scenario_three_batches() {
    // 120 entries, 50 per batch, two batches in flight at a time; the third
    // batch fails twice and then succeeds: two retry events, full result.
    let entries = make_entries(120);
    let settings = TranslationSettings {
        batch_size: 50,
        parallel_requests: 2,
        auto_continue: true,
        continue_on_error: false,
        max_retries: 3,
        streaming: false,
    };
    let mut batch2_failures = 0usize;
    let (report, events) = run(&entries, &settings, &mut |idx, batch| {
        if idx == 2 && batch2_failures < 2 {
            batch2_failures += 1;
            Err("transient".to_string())
        } else {
            Ok(echo_translate(batch))
        }
    });
    let report = report.unwrap();
    assert_eq!(report.error_message, None);
    assert_eq!(report.progress.translated_entries, 120);
    assert!(!report.progress.is_partial);
    let retries: Vec<usize> = events
        .iter()
        .filter_map(|e| match e {
            OrchestratorEvent::Retry(info) => Some(info.attempt),
            _ => None,
        })
        .collect();
    assert_eq!(retries, vec![1, 2]);
    // Sorted output regardless of concurrency degree.
    for w in report.translations.windows(2) {
        assert!(w[0].0 < w[1].0);
    }
    assert_eq!(report.translations.first().unwrap().0, 1);
    assert_eq!(report.translations.last().unwrap().0, 120);
}

#[test]
fn test_continue_on_error_leaves_batch_empty() {
    let entries = make_entries(4);
    let settings = TranslationSettings {
        batch_size: 2,
        max_retries: 1,
        continue_on_error: true,
        ..default_settings()
    };
    let (report, events) = run(&entries, &settings, &mut |idx, batch| {
        if idx == 0 {
            Err("always".to_string())
        } else {
            Ok(echo_translate(batch))
        }
    });
    let report = report.unwrap();
    assert_eq!(report.error_message, None);
    assert_eq!(report.progress.translated_entries, 2);
    assert!(report.progress.is_partial);
    assert_eq!(
        report.translations,
        vec![(3, "T:line 3".to_string()), (4, "T:line 4".to_string())]
    );
    let errors = events
        .iter()
        .filter(|e| matches!(e, OrchestratorEvent::Error(_)))
        .count();
    assert_eq!(errors, 1);
}

#[test]
fn test_no_auto_continue_stops_after_first_group() {
    let entries = make_entries(6);
    let settings = TranslationSettings {
        batch_size: 2,
        auto_continue: false,
        ..default_settings()
    };
    let (report, _) = run(&entries, &settings, &mut |_, batch| Ok(echo_translate(batch)));
    let report = report.unwrap();
    assert_eq!(report.error_message, None);
    assert_eq!(report.progress.translated_entries, 2);
    assert!(report.progress.is_partial);
    assert!(report.progress.can_continue);
}

#[test]
fn test_cancellation() {
    let entries = make_entries(2);
    let settings = default_settings();
    let mut orch = BatchOrchestrator::new(&entries, &settings);
    orch.cancel();
    let err = orch.into_report().unwrap_err();
    assert_eq!(err, "Translation cancelled");
}

#[test]
fn test_zero_batch_size_clamped() {
    let entries = make_entries(3);
    let settings = TranslationSettings {
        batch_size: 0,
        ..default_settings()
    };
    let (report, _) = run(&entries, &settings, &mut |_, batch| {
        assert_eq!(batch.len(), 1);
        Ok(echo_translate(batch))
    });
    assert_eq!(report.unwrap().progress.translated_entries, 3);
}

#[test]
fn test_resumability() {
    // A partial run over the first window, resumed from one past its last
    // translated index, merges to the same set as one uninterrupted run.
    let entries = make_entries(6);

    let first = plan_batch(&entries, 1, 3);
    let first_result = batch_call_result(&entries, 1, echo_translate(&first));
    assert!(first_result.progress.is_partial);
    assert!(first_result.progress.can_continue);
    assert_eq!(first_result.progress.last_translated_index, 3);
    assert_eq!(first_result.progress.translated_entries, 3);

    let resume_from = first_result.progress.last_translated_index + 1;
    let second = plan_batch(&entries, resume_from, 3);
    let second_result = batch_call_result(&entries, resume_from, echo_translate(&second));
    assert!(!second_result.progress.is_partial);

    let mut merged = first_result.translations.clone();
    merged.extend(second_result.translations.clone());

    let whole = plan_batch(&entries, 1, 6);
    let single_run: Vec<(usize, String)> = echo_translate(&whole);
    assert_eq!(merged, single_run);
}

#[test]
fn test_plan_batch_empty_window() {
    let entries = make_entries(3);
    let planned = plan_batch(&entries, 10, 5);
    assert!(planned.is_empty());
    let result = subtrans::orchestrator::empty_batch_result(&entries, 10);
    assert_eq!(result.progress.translated_entries, 3);
    assert_eq!(result.progress.last_translated_index, 9);
    assert!(!result.progress.is_partial);
    assert!(!result.progress.can_continue);
}
