use dm_cache::{parse, JsonPathParseError, JsonPathSegment};

#[test]
fn test_simple_object_access() {
    let result = parse("$.name").unwrap();
    assert_eq!(result.len(), 1);
    match &result[0] {
        JsonPathSegment::Key(key) => assert_eq!(key, "name"),
        _ => panic!("Expected Key segment"),
    }
}

#[test]
fn test_nested_object_access() {
    let result = parse("$.user.profile.name").unwrap();
    assert_eq!(result.len(), 3);

    match &result[0] {
        JsonPathSegment::Key(key) => assert_eq!(key, "user"),
        _ => panic!("Expected Key segment at index 0"),
    }
    match &result[1] {
        JsonPathSegment::Key(key) => assert_eq!(key, "profile"),
        _ => panic!("Expected Key segment at index 1"),
    }
    match &result[2] {
        JsonPathSegment::Key(key) => assert_eq!(key, "name"),
        _ => panic!("Expected Key segment at index 2"),
    }
}

#[test]
fn test_simple_array_access() {
    let result = parse("$.users[0]").unwrap();
    assert_eq!(result.len(), 2);

    match &result[0] {
        JsonPathSegment::Key(key) => assert_eq!(key, "users"),
        _ => panic!("Expected Key segment at index 0"),
    }
    match &result[1] {
        JsonPathSegment::Index(index) => assert_eq!(*index, 0),
        _ => panic!("Expected Index segment at index 1"),
    }
}

#[test]
fn test_mixed_object_array_access() {
    let result = parse("$.data.items[2].title").unwrap();
    assert_eq!(result.len(), 4);

    match &result[0] {
        JsonPathSegment::Key(key) => assert_eq!(key, "data"),
        _ => panic!("Expected Key segment at index 0"),
    }
    match &result[1] {
        JsonPathSegment::Key(key) => assert_eq!(key, "items"),
        _ => panic!("Expected Key segment at index 1"),
    }
    match &result[2] {
        JsonPathSegment::Index(index) => assert_eq!(*index, 2),
        _ => panic!("Expected Index segment at index 2"),
    }
    match &result[3] {
        JsonPathSegment::Key(key) => assert_eq!(key, "title"),
        _ => panic!("Expected Key segment at index 3"),
    }
}

#[test]
fn test_multiple_array_indices() {
    let result = parse("$.matrix[1][3]").unwrap();
    assert_eq!(result.len(), 3);

    match &result[0] {
        JsonPathSegment::Key(key) => assert_eq!(key, "matrix"),
        _ => panic!("Expected Key segment at index 0"),
    }
    match &result[1] {
        JsonPathSegment::Index(index) => assert_eq!(*index, 1),
        _ => panic!("Expected Index segment at index 1"),
    }
    match &result[2] {
        JsonPathSegment::Index(index) => assert_eq!(*index, 3),
        _ => panic!("Expected Index segment at index 2"),
    }
}

#[test]
fn test_complex_path() {
    let result = parse("$.library.books[0].chapters[5].title").unwrap();
    assert_eq!(result.len(), 6);

    let expected = vec![
        JsonPathSegment::Key("library".to_string()),
        JsonPathSegment::Key("books".to_string()),
        JsonPathSegment::Index(0),
        JsonPathSegment::Key("chapters".to_string()),
        JsonPathSegment::Index(5),
        JsonPathSegment::Key("title".to_string()),
    ];

    for (i, (actual, expected)) in result.iter().zip(expected.iter()).enumerate() {
        match (actual, expected) {
            (JsonPathSegment::Key(a), JsonPathSegment::Key(e)) => {
                assert_eq!(a, e, "Key mismatch at index {}", i);
            }
            (JsonPathSegment::Index(a), JsonPathSegment::Index(e)) => {
                assert_eq!(a, e, "Index mismatch at index {}", i);
            }
            _ => panic!("Type mismatch at index {}", i),
        }
    }
}

#[test]
fn test_root_only() {
    let result = parse("$").unwrap();
    assert_eq!(result.len(), 0);
}

#[test]
fn test_negative_index_error() {
    let result = parse("$.users[-1]");
    assert!(result.is_err());
    match result.unwrap_err() {
        JsonPathParseError::UnsupportedSelectorType => {}
        _ => panic!("Expected UnsupportedSelectorType error"),
    }
}

#[test]
fn test_wildcard_error() {
    let result = parse("$.users[*]");
    assert!(result.is_err());
    match result.unwrap_err() {
        JsonPathParseError::UnsupportedSelectorType => {}
        _ => panic!("Expected UnsupportedSelectorType error"),
    }
}

#[test]
fn test_descendant_operator_error() {
    let result = parse("$..name");
    assert!(result.is_err());
    match result.unwrap_err() {
        JsonPathParseError::UnsupportedSegmentType => {}
        _ => panic!("Expected UnsupportedSegmentType error"),
    }
}

#[test]
fn test_filter_expression_error() {
    let result = parse("$.users[?(@.active)]");
    assert!(result.is_err());
    match result.unwrap_err() {
        JsonPathParseError::UnsupportedSelectorType => {}
        _ => panic!("Expected UnsupportedSelectorType error"),
    }
}

#[test]
fn test_slice_operator_error() {
    let result = parse("$.users[0:2]");
    assert!(result.is_err());
    match result.unwrap_err() {
        JsonPathParseError::UnsupportedSelectorType => {}
        _ => panic!("Expected UnsupportedSelectorType error"),
    }
}

#[test]
fn test_invalid_syntax_error() {
    let result = parse("$.[invalid");
    assert!(result.is_err());
    match result.unwrap_err() {
        JsonPathParseError::ParseFailed(_) => {}
        _ => panic!("Expected ParseFailed error"),
    }
}

#[test]
fn test_bracket_notation() {
    let result = parse("$['user']['name']").unwrap();
    assert_eq!(result.len(), 2);

    match &result[0] {
        JsonPathSegment::Key(key) => assert_eq!(key, "user"),
        _ => panic!("Expected Key segment at index 0"),
    }
    match &result[1] {
        JsonPathSegment::Key(key) => assert_eq!(key, "name"),
        _ => panic!("Expected Key segment at index 1"),
    }
}

#[test]
fn test_mixed_notation() {
    let result = parse("$.user['profile'].settings[0]").unwrap();
    assert_eq!(result.len(), 4);

    match &result[0] {
        JsonPathSegment::Key(key) => assert_eq!(key, "user"),
        _ => panic!("Expected Key segment at index 0"),
    }
    match &result[1] {
        JsonPathSegment::Key(key) => assert_eq!(key, "profile"),
        _ => panic!("Expected Key segment at index 1"),
    }
    match &result[2] {
        JsonPathSegment::Key(key) => assert_eq!(key, "settings"),
        _ => panic!("Expected Key segment at index 2"),
    }
    match &result[3] {
        JsonPathSegment::Index(index) => assert_eq!(*index, 0),
        _ => panic!("Expected Index segment at index 3"),
    }
}

#[test]
fn test_large_index() {
    let result = parse("$.data[999]").unwrap();
    assert_eq!(result.len(), 2);

    match &result[1] {
        JsonPathSegment::Index(index) => assert_eq!(*index, 999),
        _ => panic!("Expected Index segment"),
    }
}

#[test]
fn test_special_characters_in_key() {
    let result = parse("$['user-name']['first_name']").unwrap();
    assert_eq!(result.len(), 2);

    match &result[0] {
        JsonPathSegment::Key(key) => assert_eq!(key, "user-name"),
        _ => panic!("Expected Key segment at index 0"),
    }
    match &result[1] {
        JsonPathSegment::Key(key) => assert_eq!(key, "first_name"),
        _ => panic!("Expected Key segment at index 1"),
    }
}

#[test]
fn test_empty_path() {
    let result = parse("");
    assert!(result.is_err());
    match result.unwrap_err() {
        JsonPathParseError::ParseFailed(_) => {}
        _ => panic!("Expected ParseFailed error"),
    }
}
