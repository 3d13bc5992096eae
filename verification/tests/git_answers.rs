use notignored::diff::{BlobId, ChangedFile, DiffError};
use notignored::git::{
    command_label, file_change_args, git_failure, is_range, merge_base_of, output_text, pre_image_of, raw_args,
    resolve_base, work_tree, Base,
};

fn file(path: &str, renamed_from: Option<&str>) -> ChangedFile {
    ChangedFile {
        path: path.to_string(),
        renamed_from: renamed_from.map(str::to_string),
        base_blob: BlobId::parse("de980441c3ab03a8c07dda1ad27b8a11f39deb1e"),
    }
}

#[test]
fn a_plain_ref_resolves_to_its_merge_base_and_a_range_stays_as_written() {
    assert!(is_range("main..HEAD"));
    assert!(!is_range("origin/main"));
    assert_eq!(
        resolve_base(Some("main"), Some("abc123".to_string()), true),
        Base::Revision("abc123".to_string())
    );
    // Disjoint histories name no merge base: the ref itself is compared.
    assert_eq!(resolve_base(Some("main"), None, true), Base::Revision("main".to_string()));
    assert_eq!(
        resolve_base(Some("main..HEAD"), Some("abc123".to_string()), true),
        Base::Range("main..HEAD".to_string())
    );
    assert_eq!(resolve_base(None, None, true), Base::Head);
    // No commit yet: the index is compared with the empty tree.
    assert_eq!(resolve_base(None, None, false), Base::Index);
    assert_eq!(Base::Index.arg(), "--cached");
    assert_eq!(Base::Head.arg(), "HEAD");
}

#[test]
fn a_merge_base_answer_is_trimmed_and_an_empty_one_names_nothing() {
    assert_eq!(merge_base_of(Some("abc123\n".to_string())), Some("abc123".to_string()));
    assert_eq!(merge_base_of(Some("  \n".to_string())), None);
    assert_eq!(merge_base_of(None), None);
}

#[test]
fn only_a_work_tree_answers_true() {
    assert_eq!(work_tree(Ok("true\n".to_string()), "./repo"), Ok(()));
    assert_eq!(
        work_tree(Ok("false\n".to_string()), "./repo"),
        Err(DiffError::NotAWorkTree { path: "repo".to_string() })
    );
    let failed = DiffError::Git { command: "git rev-parse".to_string(), message: "fatal".to_string() };
    assert_eq!(work_tree(Err(failed), "repo"), Err(DiffError::NotAWorkTree { path: "repo".to_string() }));
    assert_eq!(work_tree(Err(DiffError::GitMissing), "repo"), Err(DiffError::GitMissing));
}

#[test]
fn the_diff_arguments_name_the_base_and_the_files() {
    assert_eq!(raw_args(&Base::Head), vec!["diff", "--raw", "-z", "--abbrev=40", "--relative", "HEAD"]);
    let args = file_change_args(&Base::Revision("abc".to_string()), &file("./src/new.py", Some("src\\old.py")));
    assert_eq!(
        args,
        vec!["diff", "--no-color", "--unified=0", "--relative", "abc", "--", "src/new.py", "src/old.py"]
    );
    assert_eq!(command_label(&args), "git diff --no-color --unified=0 --relative abc -- src/new.py src/old.py");
}

#[test]
fn a_failed_git_names_its_command_and_its_trimmed_stderr() {
    let args = vec!["merge-base".to_string(), "main".to_string(), "HEAD".to_string()];
    let error = git_failure(&args, b"fatal: Not a valid object name main\n\n");
    assert_eq!(
        error,
        DiffError::Git {
            command: "git merge-base main HEAD".to_string(),
            message: "fatal: Not a valid object name main".to_string(),
        }
    );
    // Undecodable stderr is still reported, lossily.
    let error = git_failure(&args, b"bad \xff byte");
    assert_eq!(error.message(), "`git merge-base main HEAD` failed: bad \u{fffd} byte");
}

#[test]
fn git_output_is_read_lossily() {
    assert_eq!(output_text(b"plain"), "plain");
    assert_eq!(output_text(b"caf\xe9"), "caf\u{fffd}");
}

#[test]
fn a_pre_image_is_read_under_the_path_it_had_at_the_base() {
    let image = pre_image_of(&file("new.py", Some("old.py")), b"x = 1\n".to_vec()).unwrap();
    assert_eq!(image.path, "old.py");
    assert_eq!(image.text, "x = 1\n");
    let image = pre_image_of(&file("same.py", None), b"y = 2\n".to_vec()).unwrap();
    assert_eq!(image.path, "same.py");
    // Bytes that are not text are no pre-image at all.
    assert_eq!(pre_image_of(&file("bin.py", None), vec![b'x', 0xff, 0xfe]), None);
}
