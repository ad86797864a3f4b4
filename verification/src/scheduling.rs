//! The decisions a thread-pool `map` call makes around the reorder buffer:
//! which buffer sizes it accepts, what channel carries the results, how often
//! the task producer runs tasks itself, how it reacts to a filling buffer, and
//! when a worker may reuse its cached context.
use vstd::prelude::*;

verus! {

/// The error of a `map` call given a buffer size of zero.
#[derive(Debug, PartialEq, Eq)]
pub struct InvalidBufferSize;

impl InvalidBufferSize {
    /// The text the error is reported with.
    pub fn message(&self) -> (text: &'static str)
        ensures
            text@ == "buffersize must be >= 1"@,
    {
        "buffersize must be >= 1"
    }
}

/// Checks the `buffersize` argument of `map`: a bound of zero is refused.
pub fn check_buffer_size(buffersize: Option<usize>) -> (checked: Result<(), InvalidBufferSize>)
    ensures
        checked is Err <==> buffersize == Some(0usize),
{
    match buffersize {
        Some(0) => Err(InvalidBufferSize),
        _ => Ok(()),
    }
}

/// The capacity of the channel that carries results from the workers:
/// `None` stands for an unbounded channel. With a bound and ordered results,
/// the buffering happens in the reorder buffer, so the channel holds a single
/// result; with a bound and unordered results, the channel itself holds
/// `buffersize` results.
pub fn channel_capacity(
    buffersize: Option<usize>,
    return_in_order: bool,
) -> (capacity: Option<usize>)
    ensures
        capacity == match buffersize {
            None => None,
            Some(bound) => if return_in_order {
                Some(1usize)
            } else {
                Some(bound)
            },
        },
{
    match buffersize {
        Some(bound) => {
            if return_in_order {
                // Buffering happens in the reorder buffer, so minimal room here.
                Some(1)
            } else {
                Some(bound)
            }
        },
        None => None,
    }
}

/// How many tasks the producer hands out between two runs of tasks from its
/// own queue: four per thread, but no more than the buffer size.
pub open spec fn run_locally_interval_spec(n_threads: usize, buffersize: Option<usize>) -> int {
    let per_threads: int = 4 * n_threads;
    match buffersize {
        Some(bound) => if per_threads <= bound {
            per_threads
        } else {
            bound as int
        },
        None => if per_threads <= usize::MAX {
            per_threads
        } else {
            usize::MAX as int
        },
    }
}

/// How often should the iterating worker thread take a break from iterating
/// and do some actual work.
pub fn run_locally_interval(n_threads: usize, buffersize: Option<usize>) -> (interval: usize)
    requires
        4 * n_threads <= usize::MAX,
    ensures
        interval == run_locally_interval_spec(n_threads, buffersize),
        n_threads > 0 && buffersize != Some(0usize) ==> interval > 0,
        interval <= 4 * n_threads,
        match buffersize {
            Some(bound) => interval <= bound && (interval == bound || interval == 4 * n_threads),
            None => interval == 4 * n_threads,
        },
{
    let per_threads: usize = 4 * n_threads;
    let bound: usize = match buffersize {
        Some(bound) => bound,
        None => usize::MAX,
    };
    if per_threads <= bound {
        per_threads
    } else {
        bound
    }
}

/// How the producer reacts to the state of the reorder buffer before it hands
/// out more tasks.
#[derive(Clone, Copy, Debug, PartialEq, Eq)]
pub enum Backpressure {
    /// Go on handing out tasks.
    Proceed,
    /// The buffer is full: run a task, then wait until the buffer has room.
    WaitForSpace,
    /// The buffer is filling up: run tasks until none is left to run.
    WorkUntilIdle,
}

/// What the producer does after handing out the task of one message index.
#[derive(Clone, Copy, Debug, PartialEq, Eq)]
pub struct ProducerStep {
    /// The reaction to the reorder buffer's state.
    pub backpressure: Backpressure,
    /// Whether to run the tasks of its own queue until none is left.
    pub run_local_tasks: bool,
    /// The message index at which it last ran its own tasks, after this step.
    pub last_index_when_we_ran_tasks: usize,
}

/// `value.is_multiple_of(divisor)` of std: zero is the only multiple of zero.
pub open spec fn is_multiple_of_spec(value: usize, divisor: usize) -> bool {
    if divisor == 0 {
        value == 0
    } else {
        value % divisor == 0
    }
}

/// The reaction to the reorder buffer: none without a bound; waiting when no
/// slot is free; working until idle when more tasks were handed out since the
/// last local run than there are free slots.
pub open spec fn backpressure_spec(
    message_index: usize,
    last_index_when_we_ran_tasks: usize,
    slots_available: Option<usize>,
) -> Backpressure {
    match slots_available {
        None => Backpressure::Proceed,
        Some(slots) => if slots == 0 {
            Backpressure::WaitForSpace
        } else if message_index - last_index_when_we_ran_tasks > slots {
            Backpressure::WorkUntilIdle
        } else {
            Backpressure::Proceed
        },
    }
}

/// Decides what the producer does after handing out the task of
/// `message_index`, given the index of its last local run, the free slots of the
/// reorder buffer (`None` without a bound) and the local-run interval. The
/// index of the last local run never passes the current message index, which
/// is what the next step requires.
pub fn producer_step(
    message_index: usize,
    last_index_when_we_ran_tasks: usize,
    slots_available: Option<usize>,
    run_locally_interval: usize,
) -> (step: ProducerStep)
    requires
        last_index_when_we_ran_tasks <= message_index,
    ensures
        step.backpressure == backpressure_spec(
            message_index,
            last_index_when_we_ran_tasks,
            slots_available,
        ),
        step.run_local_tasks == (message_index > 0 && is_multiple_of_spec(
            message_index,
            run_locally_interval,
        )),
        step.last_index_when_we_ran_tasks == if step.run_local_tasks {
            message_index
        } else {
            last_index_when_we_ran_tasks
        },
        step.last_index_when_we_ran_tasks <= message_index,
        run_locally_interval > 0 ==> (step.run_local_tasks <==> (message_index > 0
            && message_index % run_locally_interval == 0)),
        run_locally_interval == 0 ==> !step.run_local_tasks,
        slots_available is None ==> step.backpressure == Backpressure::Proceed,
        slots_available == Some(0usize) ==> step.backpressure == Backpressure::WaitForSpace,
        match slots_available {
            Some(slots) => slots > 0 ==> (step.backpressure == Backpressure::WorkUntilIdle
                <==> message_index - last_index_when_we_ran_tasks > slots) && step.backpressure
                != Backpressure::WaitForSpace,
            None => true,
        },
{
    let backpressure = match slots_available {
        None => Backpressure::Proceed,
        Some(slots) => {
            if slots == 0 {
                Backpressure::WaitForSpace
            } else if message_index - last_index_when_we_ran_tasks > slots {
                Backpressure::WorkUntilIdle
            } else {
                Backpressure::Proceed
            }
        },
    };
    let multiple = if run_locally_interval == 0 {
        message_index == 0
    } else {
        message_index % run_locally_interval == 0
    };
    let run_local_tasks = message_index > 0 && multiple;
    ProducerStep {
        backpressure,
        run_local_tasks,
        last_index_when_we_ran_tasks: if run_local_tasks {
            message_index
        } else {
            last_index_when_we_ran_tasks
        },
    }
}

/// The producer runs its own tasks at the positive multiples of the interval:
/// for a positive interval, a message index counts exactly when dividing it by
/// the interval leaves no remainder; with an interval of zero only index zero
/// counts, which the producer never runs at.
pub proof fn law_local_runs_at_multiples(message_index: usize, interval: usize)
    ensures
        interval > 0 ==> (is_multiple_of_spec(message_index, interval) <==> message_index
            % interval == 0),
        interval > 0 && message_index % interval == 0 ==> message_index == (message_index
            / interval) * interval,
        interval == 0 ==> (is_multiple_of_spec(message_index, interval) <==> message_index
            == 0),
{
    if interval > 0 {
        assert(message_index == (message_index / interval) * interval + message_index
            % interval) by (nonlinear_arith)
            requires
                interval > 0,
        ;
    }
}

/// The local-run interval is four tasks per thread, but never more than the
/// buffer size: it is at most each of them and equal to one of them.
pub proof fn law_interval_capped_by_buffer(n_threads: usize, buffersize: Option<usize>)
    requires
        4 * n_threads <= usize::MAX,
    ensures
        run_locally_interval_spec(n_threads, buffersize) <= 4 * n_threads,
        match buffersize {
            Some(bound) => {
                let interval = run_locally_interval_spec(n_threads, buffersize);
                interval <= bound && (interval == bound || interval == 4 * n_threads)
            },
            None => run_locally_interval_spec(n_threads, buffersize) == 4 * n_threads,
        },
{
}

/// The producer's reaction to the buffer: without a bound it goes on; with no
/// free slot it waits; with free slots it works until idle exactly when it has
/// handed out more tasks since its last local run than there are free slots,
/// and otherwise goes on.
pub proof fn law_backpressure_by_free_slots(
    message_index: usize,
    last_index_when_we_ran_tasks: usize,
    slots_available: Option<usize>,
)
    requires
        last_index_when_we_ran_tasks <= message_index,
    ensures
        ({
            let reaction = backpressure_spec(
                message_index,
                last_index_when_we_ran_tasks,
                slots_available,
            );
            &&& slots_available is None ==> reaction == Backpressure::Proceed
            &&& slots_available == Some(0usize) ==> reaction == Backpressure::WaitForSpace
            &&& match slots_available {
                Some(slots) => slots > 0 ==> (reaction == Backpressure::WorkUntilIdle
                    <==> message_index - last_index_when_we_ran_tasks > slots) && reaction
                    != Backpressure::WaitForSpace,
                None => true,
            }
        }),
{
}

/// Whether a worker may reuse the context it cached: only when it has one and
/// it was made for the current `map` call's generation.
pub fn can_reuse_context(
    has_cached_context: bool,
    cached_generation: u64,
    generation: u64,
) -> (reuse: bool)
    ensures
        reuse == (has_cached_context && cached_generation == generation),
{
    has_cached_context && cached_generation == generation
}

} // verus!
