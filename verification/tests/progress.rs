use adder_algorithm::progress::check_algorithm;
use adder_algorithm::progress::AlgorithmProgress;
use adder_algorithm::progress::Poller;

#[test]
fn polling_without_a_search() {
    let (next, report) = check_algorithm(Poller::Idle, None, 0);
    assert!(matches!(next, Poller::Idle));
    assert!(matches!(report, AlgorithmProgress::NoAlgorithmRunning));
}

#[test]
fn polling_without_a_search_ignores_a_stray_result() {
    let (next, report) = check_algorithm(Poller::Idle, Some(Some(vec![1])), 7);
    assert!(matches!(next, Poller::Idle));
    assert!(matches!(report, AlgorithmProgress::NoAlgorithmRunning));
}

#[test]
fn polling_a_running_search_reports_the_row() {
    let (next, report) = check_algorithm(Poller::Running { out_of: 9 }, None, 4);
    assert!(matches!(next, Poller::Running { out_of: 9 }));
    assert!(matches!(report, AlgorithmProgress::InProgress { progress: 4, out_of: 9 }));
}

#[test]
fn polling_a_finished_search_hands_out_the_result_once() {
    let running = Poller::Running { out_of: 3 };
    let (next, report) = check_algorithm(running, Some(Some(vec![5, -2])), 2);
    assert!(matches!(next, Poller::Idle));
    match report {
        AlgorithmProgress::Done(result) => assert_eq!(result, Some(vec![5, -2])),
        other => panic!("unexpected report {other:?}"),
    }
    let (after, again) = check_algorithm(next, None, 2);
    assert!(matches!(after, Poller::Idle));
    assert!(matches!(again, AlgorithmProgress::NoAlgorithmRunning));
}

#[test]
fn polling_a_search_that_found_nothing() {
    let (next, report) = check_algorithm(Poller::Running { out_of: 1 }, Some(None), 0);
    assert!(matches!(next, Poller::Idle));
    assert!(matches!(report, AlgorithmProgress::Done(None)));
}

#[test]
fn progress_reports_do_not_go_back_while_the_counter_grows() {
    let mut state = Poller::Running { out_of: 5 };
    let mut last = 0;
    for counter in 0..5usize {
        let (next, report) = check_algorithm(state, None, counter);
        match report {
            AlgorithmProgress::InProgress { progress, out_of } => {
                assert!(progress >= last);
                assert_eq!(out_of, 5);
                last = progress;
            }
            other => panic!("unexpected report {other:?}"),
        }
        state = next;
    }
}
