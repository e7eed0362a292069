use breadchunks::node::{map_chunk, map_options, run_batch, ChunkOptions};

#[test]
fn test_map_options_none() {
    assert!(map_options(None).is_none());
}

#[test]
fn test_map_options_some() {
    let input = ChunkOptions {
        min_length: Some(10),
        max_length: Some(100),
        phase: Some(2),
        title: Some("Test Title".to_string()),
    };

    let result = map_options(Some(input)).expect("Expected Some");
    assert_eq!(result.min_length, Some(10));
    assert_eq!(result.max_length, Some(100));
    assert_eq!(result.phase, Some(2));
    assert_eq!(result.title.as_deref(), Some("Test Title"));
}

#[test]
fn test_map_chunk_valid_length() {
    let mut chunks = breadchunks::chunk("# Test\n\nHello, world!", None);
    let chunk = chunks.remove(0);

    let result = map_chunk(chunk).unwrap();
    assert_eq!(result.level, 1);
    assert_eq!(result.header, Some("Test".to_string()));
    assert_eq!(result.breadcrumb, "Test");
    assert_eq!(result.text, "Hello, world!");
    assert_eq!(result.length, 18);
}

#[test]
fn test_map_chunk_exceeds_u32_max() {
    let mut chunks = breadchunks::chunk("Too long", None);
    let mut chunk = chunks.remove(0);
    chunk.length = (u32::MAX as usize) + 1;
    let err = map_chunk(chunk).unwrap_err();
    assert_eq!(
        err,
        "chunk length exceeds u32::MAX; docs >4 GiB unsupported on Node binding"
    );
}

#[test]
fn test_run_batch_empty() {
    let inputs: Vec<String> = vec![];
    let result = run_batch(&inputs, &None).unwrap();
    assert!(result.is_empty());
}

#[test]
fn test_run_batch_single_input() {
    let inputs = vec!["# Title\n\nContent".to_string()];
    let result = run_batch(&inputs, &None).unwrap();
    assert_eq!(result.len(), 1);
    assert_eq!(result[0].len(), 1);
    assert_eq!(result[0][0].text, "Content");
    assert_eq!(result[0][0].breadcrumb, "Title");
}

#[test]
fn test_run_batch_multiple_inputs() {
    let inputs = vec![
        "# Title 1\n\nContent 1".to_string(),
        "# Title 2\n\nContent 2".to_string(),
    ];
    let result = run_batch(&inputs, &None).unwrap();
    assert_eq!(result.len(), 2);

    assert_eq!(result[0].len(), 1);
    assert_eq!(result[0][0].text, "Content 1");
    assert_eq!(result[0][0].breadcrumb, "Title 1");

    assert_eq!(result[1].len(), 1);
    assert_eq!(result[1][0].text, "Content 2");
    assert_eq!(result[1][0].breadcrumb, "Title 2");
}

#[test]
fn test_run_batch_with_options() {
    let inputs = vec!["Just content without title".to_string()];
    let options = Some(breadchunks::ChunkOptions {
        title: Some("Fallback Title".to_string()),
        ..Default::default()
    });

    let result = run_batch(&inputs, &options).unwrap();
    assert_eq!(result.len(), 1);
    assert_eq!(result[0].len(), 1);
    assert_eq!(result[0][0].text, "Just content without title");
    assert_eq!(result[0][0].breadcrumb, "Fallback Title");
}
