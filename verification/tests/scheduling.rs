use spinningjenny::scheduling::{
    can_reuse_context, channel_capacity, check_buffer_size, producer_step, run_locally_interval,
    Backpressure, InvalidBufferSize, ProducerStep,
};

#[test]
fn zero_buffer_size_is_refused() {
    assert_eq!(check_buffer_size(Some(0)), Err(InvalidBufferSize));
    assert_eq!(InvalidBufferSize.message(), "buffersize must be >= 1");
    assert_eq!(check_buffer_size(Some(1)), Ok(()));
    assert_eq!(check_buffer_size(None), Ok(()));
}

#[test]
fn channel_capacity_by_mode() {
    assert_eq!(channel_capacity(None, true), None);
    assert_eq!(channel_capacity(None, false), None);
    assert_eq!(channel_capacity(Some(10), true), Some(1));
    assert_eq!(channel_capacity(Some(10), false), Some(10));
}

#[test]
fn local_run_interval() {
    assert_eq!(run_locally_interval(4, None), 16);
    assert_eq!(run_locally_interval(4, Some(100)), 16);
    assert_eq!(run_locally_interval(4, Some(5)), 5);
    assert_eq!(run_locally_interval(1, Some(4)), 4);
    assert_eq!(run_locally_interval(0, None), 0);
}

#[test]
fn producer_without_bound_only_runs_locally_at_multiples() {
    assert_eq!(
        producer_step(0, 0, None, 4),
        ProducerStep {
            backpressure: Backpressure::Proceed,
            run_local_tasks: false,
            last_index_when_we_ran_tasks: 0
        }
    );
    assert_eq!(
        producer_step(8, 4, None, 4),
        ProducerStep {
            backpressure: Backpressure::Proceed,
            run_local_tasks: true,
            last_index_when_we_ran_tasks: 8
        }
    );
    assert_eq!(
        producer_step(9, 8, None, 4),
        ProducerStep {
            backpressure: Backpressure::Proceed,
            run_local_tasks: false,
            last_index_when_we_ran_tasks: 8
        }
    );
}

#[test]
fn producer_reacts_to_the_buffer() {
    assert_eq!(producer_step(5, 2, Some(0), 16).backpressure, Backpressure::WaitForSpace);
    assert_eq!(producer_step(5, 2, Some(2), 16).backpressure, Backpressure::WorkUntilIdle);
    assert_eq!(producer_step(5, 2, Some(3), 16).backpressure, Backpressure::Proceed);
    assert_eq!(producer_step(5, 2, Some(10), 16).backpressure, Backpressure::Proceed);
}

#[test]
fn producer_with_zero_interval_never_runs_locally() {
    assert!(!producer_step(0, 0, None, 0).run_local_tasks);
    assert!(!producer_step(3, 0, None, 0).run_local_tasks);
}

#[test]
fn context_reuse_needs_same_generation() {
    assert!(can_reuse_context(true, 3, 3));
    assert!(!can_reuse_context(true, 2, 3));
    assert!(!can_reuse_context(false, 3, 3));
}
