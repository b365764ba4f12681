use asr_pipeline::persist::validate_transcription_path;
use asr_pipeline::persist::PathError;

#[test]
fn absolute_clean_path_is_accepted() {
    assert_eq!(validate_transcription_path("/home/user/out.txt"), Ok(()));
    assert_eq!(validate_transcription_path("/"), Ok(()));
}

#[test]
fn relative_path_is_rejected() {
    assert_eq!(
        validate_transcription_path("notes/out.txt"),
        Err(PathError::NotAbsolute)
    );
    assert_eq!(validate_transcription_path(""), Err(PathError::NotAbsolute));
}

#[test]
fn parent_traversal_is_rejected() {
    assert_eq!(
        validate_transcription_path("/home/../etc/passwd"),
        Err(PathError::ParentTraversal)
    );
    assert_eq!(validate_transcription_path("/.."), Err(PathError::ParentTraversal));
}

#[test]
fn dots_inside_names_are_allowed() {
    assert_eq!(validate_transcription_path("/a/..b/c"), Ok(()));
    assert_eq!(validate_transcription_path("/a/b../c"), Ok(()));
    assert_eq!(validate_transcription_path("/a/file..txt"), Ok(()));
    assert_eq!(validate_transcription_path("/a/."), Ok(()));
}
