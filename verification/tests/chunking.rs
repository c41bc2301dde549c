use chunker::Block;
use chunker::Builder;
use chunker::Chunker;
use chunker::ChunkerError;

fn leaf_bytes(b: &Builder) -> Vec<u8> {
    let mut out = Vec::new();
    for blk in b.blocks.iter() {
        match blk {
            Block::Leaf(buf) => out.extend_from_slice(buf),
            Block::Call(_) => panic!("chunk fragment still holds a call"),
        }
    }
    out
}

#[test]
fn single_leaf_underfilled_final_chunk() {
    let program = Builder::new().push_script(vec![7u8; 50]);
    let mut chunker = Chunker::new(program, 100, 20);
    let sizes = chunker.find_chunks();
    assert_eq!(sizes, Ok(vec![50]));
    assert_eq!(chunker.chunks.len(), 1);
    assert!(chunker.call_stack.is_empty());
}

#[test]
fn three_atomic_leaves_are_infeasible() {
    let program = Builder::new()
        .push_script(vec![1u8; 40])
        .push_script(vec![2u8; 40])
        .push_script(vec![3u8; 40]);
    let mut chunker = Chunker::new(program, 100, 10);
    assert_eq!(chunker.find_chunks(), Err(ChunkerError));
}

#[test]
fn oversized_call_expands_and_chunking_continues() {
    let first = Builder::new().push_script(vec![4u8; 90]);
    let second = Builder::new().push_script(vec![5u8; 60]);
    let sub = Builder::new().push_call(2, first).push_call(3, second);
    let program = Builder::new().push_call(1, sub);
    assert_eq!(program.len(), 150);
    let mut chunker = Chunker::new(program, 100, 20);
    assert_eq!(chunker.find_chunks(), Ok(vec![90, 60]));
}

#[test]
fn greedy_packing_respects_the_window() {
    let a = Builder::new().push_script(vec![1u8; 50]);
    let b = Builder::new().push_script(vec![2u8; 40]);
    let c = Builder::new().push_script(vec![3u8; 30]);
    let program = Builder::new().push_call(1, a).push_call(2, b).push_call(3, c);
    assert_eq!(program.len(), 120);
    let mut chunker = Chunker::new(program, 100, 20);
    let sizes = chunker.find_chunks().unwrap();
    assert_eq!(sizes, vec![90, 30]);
    for (i, size) in sizes.iter().enumerate() {
        assert!(*size <= 100);
        if i + 1 < sizes.len() {
            assert!(*size >= 80);
        }
    }
}

#[test]
fn chunk_contents_cover_the_whole_program() {
    let a = Builder::new().push_script(vec![1u8; 50]);
    let b = Builder::new().push_script(vec![2u8; 40]);
    let c = Builder::new().push_script(vec![3u8; 30]);
    let program = Builder::new().push_call(1, a).push_call(2, b).push_call(3, c);
    let mut chunker = Chunker::new(program, 100, 20);
    let sizes = chunker.find_chunks().unwrap();
    let mut emitted = Vec::new();
    for chunk in chunker.chunks.iter() {
        for fragment in chunk.iter() {
            emitted.extend_from_slice(&leaf_bytes(fragment));
        }
    }
    let mut expected = vec![1u8; 50];
    expected.extend_from_slice(&vec![2u8; 40]);
    expected.extend_from_slice(&vec![3u8; 30]);
    assert_eq!(emitted, expected);
    assert_eq!(sizes.iter().sum::<usize>(), expected.len());
}

#[test]
fn identical_input_gives_identical_chunks() {
    let build = || {
        let a = Builder::new().push_script(vec![1u8; 50]);
        let b = Builder::new().push_script(vec![2u8; 40]);
        let c = Builder::new().push_script(vec![3u8; 30]);
        Builder::new().push_call(1, a).push_call(2, b).push_call(3, c)
    };
    let mut first = Chunker::new(build(), 100, 20);
    let mut second = Chunker::new(build(), 100, 20);
    assert_eq!(first.find_chunks(), second.find_chunks());
}

#[test]
fn small_leaves_behind_calls_always_chunk() {
    let mut program = Builder::new();
    for id in 0..5u32 {
        let body = Builder::new().push_script(vec![id as u8; 15]);
        program = program.push_call(id, body);
    }
    assert_eq!(program.len(), 75);
    let mut chunker = Chunker::new(program, 40, 20);
    assert_eq!(chunker.find_chunks(), Ok(vec![30, 30, 15]));
}

#[test]
fn zero_length_program_gives_one_empty_chunk() {
    let mut chunker = Chunker::new(Builder::new(), 100, 20);
    assert_eq!(chunker.find_chunks(), Ok(vec![0]));
}

#[test]
fn tolerance_equal_to_target_closes_at_once() {
    let program = Builder::new().push_script(vec![9u8; 30]).push_script(vec![8u8; 30]);
    let mut chunker = Chunker::new(program, 100, 100);
    assert_eq!(chunker.find_chunks(), Ok(vec![60]));
}

#[test]
fn zero_tolerance_accepts_an_exact_fit() {
    let program = Builder::new().push_script(vec![6u8; 50]);
    let mut chunker = Chunker::new(program, 50, 0);
    assert_eq!(chunker.find_chunks(), Ok(vec![50]));
}

#[test]
fn chunker_error_describes_itself() {
    let program = Builder::new()
        .push_script(vec![1u8; 40])
        .push_script(vec![2u8; 40])
        .push_script(vec![3u8; 40]);
    let mut chunker = Chunker::new(program, 100, 10);
    let err = chunker.find_chunks().unwrap_err();
    assert_eq!(err.message(), "Unable to chunk with set parameters");
}

#[test]
fn contains_call_sees_only_top_level_blocks() {
    let sub = Builder::new().push_script(vec![1u8; 10]);
    let with_call = Builder::new().push_call(1, sub);
    assert!(with_call.contains_call());
    let leaf_only = Builder::new().push_script(vec![2u8; 10]);
    assert!(!leaf_only.contains_call());
}

#[test]
fn length_resolves_nested_calls() {
    let inner = Builder::new().push_script(vec![1u8; 20]);
    let middle = Builder::new().push_call(7, inner).push_script(vec![2u8; 5]);
    let outer = Builder::new().push_call(8, middle).push_script(vec![3u8; 1]);
    assert_eq!(outer.len(), 26);
}
