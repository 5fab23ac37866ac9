use lockbook::embed::{
    batch_count, batch_done, choose_device, next_action, probe_inputs, start_run, token_offset,
    Device, EmbedAction, Probe,
};

#[test]
fn the_gpu_is_used_where_it_is_fast() {
    assert!(matches!(choose_device(&Probe::NoSession), Device::Cpu));
    assert!(matches!(choose_device(&Probe::Failed), Device::Cpu));
    assert!(matches!(choose_device(&Probe::Ran(0)), Device::Gpu));
    assert!(matches!(choose_device(&Probe::Ran(3000)), Device::Gpu));
    assert!(matches!(choose_device(&Probe::Ran(3001)), Device::Cpu));
}

#[test]
fn the_probe_is_a_batch_of_eight() {
    let (ids, mask) = probe_inputs();
    assert_eq!(ids, vec![0i64; 8 * 128]);
    assert_eq!(mask, vec![1i64; 8 * 128]);
}

#[test]
fn batches_are_counted() {
    assert_eq!(batch_count(0), 0);
    assert_eq!(batch_count(1), 1);
    assert_eq!(batch_count(32), 1);
    assert_eq!(batch_count(33), 2);
    assert_eq!(batch_count(8985), 281);
    assert_eq!(batch_count(usize::MAX), usize::MAX / 32 + 1);
}

#[test]
fn batches_partition_the_texts() {
    for n in [0usize, 1, 31, 32, 33, 64, 100] {
        let mut run = start_run(n);
        let mut covered = 0;
        loop {
            match next_action(&run, 0) {
                EmbedAction::Embed { from, to } => {
                    assert_eq!(from, covered);
                    assert!(from < to && to - from <= 32);
                    covered = to;
                    run = batch_done(&run, 10).0;
                }
                EmbedAction::Complete => break,
                EmbedAction::TimedOut | EmbedAction::Failed => panic!("nothing went wrong"),
            }
        }
        assert_eq!(covered, n);
        assert_eq!(run.batch, batch_count(n));
    }
}

#[test]
fn embedding_times_out() {
    let run = start_run(40);
    assert!(matches!(next_action(&run, 1800), EmbedAction::Embed { from: 0, to: 32 }));
    assert!(matches!(next_action(&run, 1801), EmbedAction::TimedOut));
    let run = batch_done(&run, 0).0;
    assert!(matches!(next_action(&run, 1800), EmbedAction::Embed { from: 32, to: 40 }));
    let run = batch_done(&run, 0).0;
    assert!(matches!(next_action(&run, 5000), EmbedAction::Complete));
}

#[test]
fn slow_batches_are_reported_once() {
    let run = start_run(200);
    let (run, report) = batch_done(&run, 2000);
    assert!(!report);
    let (run, report) = batch_done(&run, 2001);
    assert!(report);
    let (run, report) = batch_done(&run, 9000);
    assert!(!report);
    assert!(run.warned);
}

#[test]
fn token_vectors_stand_in_rows() {
    assert_eq!(token_offset(0, 0, 128, 1024), 0);
    assert_eq!(token_offset(0, 5, 128, 1024), 5 * 1024);
    assert_eq!(token_offset(3, 7, 128, 1024), 3 * 128 * 1024 + 7 * 1024);
}
