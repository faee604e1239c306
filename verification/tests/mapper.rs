use chunked_map::{flatten_chunks, handle_vector, split_into_chunks, split_work, THRESHOLD};

fn validate_result(input_len: i32) {
    let input: Vec<i32> = (0..input_len).collect();
    let direct_transform = |elt: i32| elt * 7;
    let reverse_transform = |elt: i32| elt / 7;

    let result = split_work(input.clone(), direct_transform);

    assert_eq!(input.len(), result.len(), "invalid len of the result vector");

    for (idx, elt) in input.into_iter().enumerate() {
        assert_eq!(
            elt,
            reverse_transform(result[idx]),
            "invalid result of the work"
        );
    }
}

#[test]
fn differrent_vector_len_test() {
    let input_len = THRESHOLD as i32;
    validate_result(0);
    validate_result(input_len / 2);
    validate_result(input_len);
    validate_result(input_len + 1);
    validate_result(input_len * 2);
    validate_result(input_len * 800);
    validate_result(input_len * 12345 + 1);
}

#[test]
fn empty_input_returns_empty() {
    let input: Vec<u64> = Vec::new();
    let result = split_work(input, |x: u64| x + 1);
    assert_eq!(result.len(), 0);
}

#[test]
fn sequential_path_scenario() {
    // Length exactly THRESHOLD stays on the direct pass.
    let input: Vec<i32> = (0..THRESHOLD as i32).collect();
    let result = split_work(input, |x: i32| x * 7);
    assert_eq!(result.len(), THRESHOLD);
    for (i, r) in result.iter().enumerate() {
        assert_eq!(*r, i as i32 * 7);
        assert_eq!(*r / 7, i as i32);
    }
}

#[test]
fn parallel_path_scenario() {
    // Length THRESHOLD + 1 goes through the chunked pass with two chunks.
    let n = THRESHOLD as i32 + 1;
    let input: Vec<i32> = (0..n).collect();
    let result = split_work(input, |x: i32| x * 7);
    assert_eq!(result.len(), THRESHOLD + 1);
    for (i, r) in result.iter().enumerate() {
        assert_eq!(*r, i as i32 * 7);
    }
}

#[test]
fn pointwise_correspondence() {
    let input: Vec<String> = vec!["a".to_string(), "bb".to_string(), "ccc".to_string()];
    let result = split_work(input, |s: String| s.len());
    assert_eq!(result, vec![1, 2, 3]);
}

#[test]
fn handle_vector_maps_in_order() {
    let input: Vec<u32> = vec![5, 0, 9, 2];
    let result = handle_vector(input, |x: u32| x + 100);
    assert_eq!(result, vec![105, 100, 109, 102]);
}

#[test]
fn chunking_boundary_sizes() {
    // Empty input: no chunks at all.
    let chunks = split_into_chunks(Vec::<u8>::new());
    assert_eq!(chunks.len(), 0);

    // Exactly THRESHOLD elements: one full chunk.
    let chunks = split_into_chunks((0..THRESHOLD as u32).collect::<Vec<u32>>());
    assert_eq!(chunks.len(), 1);
    assert_eq!(chunks[0].len(), THRESHOLD);

    // THRESHOLD + 1 elements: a full chunk and a single trailing element.
    let chunks = split_into_chunks((0..THRESHOLD as u32 + 1).collect::<Vec<u32>>());
    assert_eq!(chunks.len(), 2);
    assert_eq!(chunks[0].len(), THRESHOLD);
    assert_eq!(chunks[1].len(), 1);

    // 2 * THRESHOLD elements: two full chunks.
    let chunks = split_into_chunks((0..2 * THRESHOLD as u32).collect::<Vec<u32>>());
    assert_eq!(chunks.len(), 2);
    assert_eq!(chunks[0].len(), THRESHOLD);
    assert_eq!(chunks[1].len(), THRESHOLD);
}

#[test]
fn chunks_reconstruct_input() {
    let input: Vec<u32> = (0..3 * THRESHOLD as u32 + 17).collect();
    let chunks = split_into_chunks(input.clone());
    assert_eq!(chunks.len(), 4);
    let rebuilt = flatten_chunks(chunks);
    assert_eq!(rebuilt, input);
}

#[test]
fn flatten_concatenates_in_order() {
    let chunks: Vec<Vec<u8>> = vec![vec![1, 2], vec![3], vec![], vec![4, 5]];
    assert_eq!(flatten_chunks(chunks), vec![1, 2, 3, 4, 5]);
}

#[test]
fn paths_agree_across_the_boundary() {
    // The direct pass and the chunked pass give identical outputs for the
    // shared prefix of inputs that straddle the threshold boundary.
    let small: Vec<i32> = (0..THRESHOLD as i32).collect();
    let large: Vec<i32> = (0..THRESHOLD as i32 + 1).collect();
    let f = |x: i32| x * 31 + 1;
    let out_small = split_work(small, f);
    let out_large = split_work(large, f);
    assert_eq!(out_small[..], out_large[..THRESHOLD]);
}
