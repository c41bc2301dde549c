use std::rc::Rc;

use chunker::AnalyzeError;
use chunker::Builder;
use chunker::Chunker;
use chunker::StackAnalyzer;
use chunker::StackStatus;
use chunker::stack_io_sizes;

struct FixedAnalyzer {
    status: StackStatus,
}

impl StackAnalyzer for FixedAnalyzer {
    fn analyze_blocks(&mut self, _chunk: &Vec<Rc<Builder>>) -> StackStatus {
        self.status
    }
}

#[test]
fn io_sizes_of_a_valid_report() {
    let status = StackStatus {
        deepest_stack_accessed: -2,
        stack_changed: 3,
        deepest_altstack_accessed: -1,
        altstack_changed: -1,
    };
    assert_eq!(stack_io_sizes(&status), Some((2, 5, 1, 0)));
}

#[test]
fn io_sizes_reject_a_positive_deepest_access() {
    let status = StackStatus {
        deepest_stack_accessed: 1,
        stack_changed: 3,
        deepest_altstack_accessed: 0,
        altstack_changed: 0,
    };
    assert_eq!(stack_io_sizes(&status), None);
}

#[test]
fn io_sizes_reject_a_negative_output() {
    let status = StackStatus {
        deepest_stack_accessed: -1,
        stack_changed: -5,
        deepest_altstack_accessed: 0,
        altstack_changed: 0,
    };
    assert_eq!(stack_io_sizes(&status), None);
}

#[test]
fn analysis_reports_size_and_io_per_chunk() {
    let program = Builder::new().push_script(vec![7u8; 50]);
    let mut chunker = Chunker::new(program, 100, 20);
    let mut analyzer = FixedAnalyzer {
        status: StackStatus {
            deepest_stack_accessed: -2,
            stack_changed: 3,
            deepest_altstack_accessed: -1,
            altstack_changed: -1,
        },
    };
    let rows = chunker.find_chunks_and_analyze_stack(&mut analyzer);
    assert_eq!(rows, Ok(vec![(50, 2, 5, 1, 0)]));
}

#[test]
fn analysis_surfaces_an_invariant_violation() {
    let program = Builder::new().push_script(vec![7u8; 50]);
    let mut chunker = Chunker::new(program, 100, 20);
    let mut analyzer = FixedAnalyzer {
        status: StackStatus {
            deepest_stack_accessed: 2,
            stack_changed: 3,
            deepest_altstack_accessed: 0,
            altstack_changed: 0,
        },
    };
    let rows = chunker.find_chunks_and_analyze_stack(&mut analyzer);
    assert_eq!(rows, Err(AnalyzeError::InvariantViolation));
}

#[test]
fn analysis_surfaces_an_infeasible_window() {
    let program = Builder::new()
        .push_script(vec![1u8; 40])
        .push_script(vec![2u8; 40])
        .push_script(vec![3u8; 40]);
    let mut chunker = Chunker::new(program, 100, 10);
    let mut analyzer = FixedAnalyzer {
        status: StackStatus {
            deepest_stack_accessed: 0,
            stack_changed: 0,
            deepest_altstack_accessed: 0,
            altstack_changed: 0,
        },
    };
    let rows = chunker.find_chunks_and_analyze_stack(&mut analyzer);
    assert!(matches!(rows, Err(AnalyzeError::Chunking(_))));
}
