use muaddib::workload::baseline::run_baseline;
use muaddib::workload::data::reference_checksum;
use muaddib::workload::pipeline::{PipelineConfig, PipelineError};

fn config(batches: u64, pool: usize, stages: usize) -> PipelineConfig {
    PipelineConfig {
        batches,
        region_size: 32,
        pool,
        stages,
        seed: 7,
        trace: false,
    }
}

#[test]
fn the_baseline_finishes_every_batch_in_order_with_its_reference_checksum() {
    let cfg = config(11, 2, 3);
    let report = run_baseline(cfg, true).unwrap();
    assert_eq!(report.results.len(), 11);
    for (j, r) in report.results.iter().enumerate() {
        assert_eq!(r.batch, j as u64);
        assert_eq!(r.checksum, reference_checksum(7, j as u64, 32, 3));
    }
    assert_eq!(report.stats.messages, 11 * 5);
    assert_eq!(report.stats.bytes_processed, 11 * 5 * 32);
}

#[test]
fn the_baseline_with_an_empty_pool_stalls_after_one_idle_round() {
    assert_eq!(
        run_baseline(config(2, 0, 1), false).err(),
        Some(PipelineError::Stalled { turns: 5 })
    );
}

#[test]
fn the_baseline_with_no_batches_does_nothing() {
    let report = run_baseline(config(0, 0, 2), true).unwrap();
    assert!(report.results.is_empty());
    assert_eq!(report.stats.scheduler_turns, 0);
}

#[test]
fn clocks_change_nothing_the_baseline_computes() {
    let cfg = config(9, 3, 2);
    let plain = run_baseline(cfg, false).unwrap();
    let clocked = run_baseline(cfg, true).unwrap();
    assert_eq!(plain.results, clocked.results);
    assert_eq!(plain.stats, clocked.stats);
}
