//! Tests of the temporal smoothing rule, the frame pipeline's edge
//! behaviour, and the worker/channel protocol decisions.

use lip_sync::fixed::SCALE;
use lip_sync::job::{worker_step, Job, JobMessage, run_worker, WorkerStep, HALF_AMOUNT};
use lip_sync::lip_sync::{poll_action, PollAction, RecvOutcome};
use lip_sync::model::{VowelEstimate, vowel_label};

#[test]
fn new_job_starts_indeterminate() {
    let job = Job::new();
    assert_eq!(job.vowel_log.len(), 3);
    assert_eq!(job.estimate_log.len(), 3);
    for i in 0..3 {
        assert_eq!(job.vowel_log[i], -1);
        assert_eq!(job.estimate_log[i], -1);
    }
    assert_eq!(job.before_sample_array.len(), 0);
}

#[test]
fn confirmed_repetition_adopts_the_vowel() {
    // raw history already holds the same valid label; no smoothed output yet
    let a = 0i32;
    let out = Job::smooth_step(a, -1, a, SCALE, 3);
    assert_eq!(out, a);
}

#[test]
fn low_confidence_freezes_the_displayed_vowel() {
    // previous smoothed output 1, confidence 0.2: output stays 1
    let amount = SCALE / 5;
    assert!(amount < HALF_AMOUNT);
    let out = Job::smooth_step(0, 1, 0, amount, 3);
    assert_eq!(out, 1);
    let out = Job::smooth_step(-1, 1, 2, amount, 3);
    assert_eq!(out, 1);
}

#[test]
fn unconfirmed_change_holds_previous_output() {
    // current disagrees with the last raw estimate: hold the old vowel
    let out = Job::smooth_step(2, 1, 0, SCALE, 3);
    assert_eq!(out, 1);
}

#[test]
fn cold_start_uses_the_fallback_label() {
    // nothing valid anywhere: the injected fallback label is used
    let out = Job::smooth_step(-1, -1, -1, SCALE, 3);
    assert_eq!(out, 3);
}

#[test]
fn sentinel_repetition_is_not_a_confirmation() {
    // current == previous raw == -1 must not output -1 when a fallback exists
    let out = Job::smooth_step(-1, -1, -1, SCALE, 2);
    assert_eq!(out, 2);
}

#[test]
fn short_frame_yields_no_result() {
    let mut job = Job::new();
    let stream = vec![0i64; 1023];
    assert!(job.execute(&stream).is_none());
    // and the state is untouched
    assert_eq!(job.before_sample_array.len(), 0);
    assert_eq!(job.vowel_log[0], -1);
}

#[test]
fn full_frame_yields_one_result_in_range() {
    let mut job = Job::new();
    let mut stream = vec![0i64; 1024];
    for (i, s) in stream.iter_mut().enumerate() {
        *s = if i % 8 < 4 { SCALE } else { -SCALE };
    }
    let r = job.execute_seeded(&stream, 0).expect("a full frame must produce a result");
    assert!(0 <= r.amount && r.amount <= SCALE);
    assert!(-1 <= r.estimate && r.estimate < 5);
    assert!(-1 <= r.vowel && r.vowel < 5);
    // a full-scale square wave sits at 0 dB, and its two spectral peaks
    // are too few to classify
    assert_eq!(r.amount, SCALE);
    assert_eq!(r.estimate, -1);
    assert_eq!(r.vowel, 0);
    // the previous-spectrum store now holds the non-negative half spectrum
    assert_eq!(job.before_sample_array.len(), 513);
}

#[test]
fn loud_frame_has_full_confidence() {
    let mut job = Job::new();
    let stream = vec![SCALE; 1024];
    let r = job.execute_seeded(&stream, 0).unwrap();
    // level 0 dB sits at the top of the 100 dB window
    assert_eq!(r.amount, SCALE);
    // a constant frame yields four envelope peaks; the signed amplitude
    // term hands the classification to the last template, but the first
    // sighting is unconfirmed, so the fallback label is displayed
    assert_eq!(r.estimate, 4);
    assert_eq!(r.vowel, 0);
    // the repetition on the next frame confirms the change
    let r2 = job.execute_seeded(&stream, 0).unwrap();
    assert_eq!(r2.estimate, 4);
    assert_eq!(r2.vowel, 4);
}

#[test]
fn worker_processes_frames_in_order() {
    let mut job = Job::new();
    let frame = vec![SCALE; 1024];
    let inbox = vec![
        JobMessage::InputData(frame.clone()),
        JobMessage::InputData(vec![0i64; 10]),
        JobMessage::InputData(frame.clone()),
    ];
    let out = run_worker(&mut job, &inbox);
    // the short frame in the middle is skipped without a result
    assert_eq!(out.len(), 2);
    for v in out {
        assert!(0 <= v.amount && v.amount <= SCALE);
        assert!(-1 <= v.estimate && v.estimate < 5);
        assert!(-1 <= v.vowel && v.vowel < 5);
    }
}

#[test]
fn no_results_after_shutdown() {
    let mut job = Job::new();
    let frame = vec![SCALE; 1024];
    let inbox = vec![
        JobMessage::InputData(frame.clone()),
        JobMessage::Shutdown,
        JobMessage::InputData(frame.clone()),
        JobMessage::InputData(frame.clone()),
    ];
    let out = run_worker(&mut job, &inbox);
    // only the frame ahead of the shutdown is answered
    assert_eq!(out.len(), 1);
}

#[test]
fn shutdown_first_yields_nothing() {
    let mut job = Job::new();
    let inbox = vec![JobMessage::Shutdown, JobMessage::InputData(vec![SCALE; 1024])];
    let out = run_worker(&mut job, &inbox);
    assert_eq!(out.len(), 0);
}

#[test]
fn poll_delivers_results() {
    let v = VowelEstimate::new(1, 2, 3);
    let a = poll_action(RecvOutcome::Message(JobMessage::OutputData(v)));
    assert!(matches!(a, PollAction::Updated(u) if u == v));
}

#[test]
fn poll_treats_unexpected_messages_as_protocol_violation() {
    let a = poll_action(RecvOutcome::Message(JobMessage::Shutdown));
    assert!(matches!(a, PollAction::RequestShutdown));
    let a = poll_action(RecvOutcome::Message(JobMessage::InputData(vec![1])));
    assert!(matches!(a, PollAction::RequestShutdown));
}

#[test]
fn poll_reports_disconnection_and_ignores_empty() {
    assert!(matches!(poll_action(RecvOutcome::Disconnected), PollAction::NotifyFailure));
    assert!(matches!(poll_action(RecvOutcome::Empty), PollAction::Idle));
}

#[test]
fn vowel_labels_in_order() {
    let labels: Vec<char> = (0..5usize).map(vowel_label).collect();
    assert_eq!(labels, vec!['A', 'E', 'I', 'O', 'U']);
}

#[test]
fn estimate_record_carries_its_fields() {
    let v = VowelEstimate::new(2, 4, 123);
    assert_eq!(v.estimate, 2);
    assert_eq!(v.vowel, 4);
    assert_eq!(v.amount, 123);
}

#[test]
fn consecutive_frames_blend_with_the_stored_spectrum() {
    let mut job = Job::new();
    let stream = vec![SCALE; 1024];
    job.execute_seeded(&stream, 0).unwrap();
    let first_prev = job.before_sample_array.clone();
    let r = job.execute_seeded(&stream, 0).unwrap();
    // the stored spectrum persists and the histories stay bounded
    assert_eq!(job.before_sample_array.len(), 513);
    assert_eq!(job.vowel_log.len(), 3);
    assert_eq!(job.estimate_log.len(), 3);
    assert!(0 <= r.amount && r.amount <= SCALE);
    assert_eq!(first_prev.len(), 513);
}

#[test]
fn worker_step_emits_analyses_and_stops() {
    let mut job = Job::new();
    let r = worker_step(&mut job, JobMessage::InputData(vec![SCALE; 1024]));
    assert!(matches!(r, WorkerStep::Emit(_)));
    let r = worker_step(&mut job, JobMessage::InputData(vec![0i64; 3]));
    assert!(matches!(r, WorkerStep::Continue));
    let r = worker_step(&mut job, JobMessage::Shutdown);
    assert!(matches!(r, WorkerStep::Stop));
    let r = worker_step(&mut job, JobMessage::OutputData(VowelEstimate::new(0, 0, 0)));
    assert!(matches!(r, WorkerStep::Stop));
}
