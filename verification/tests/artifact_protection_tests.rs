use mangodisk::artifact_protection::{
    git_inspection_arguments, ownership_from_git, ownership_step, root_name_check, GitInspection,
    OwnershipStep, RepositoryProbe,
};

#[test]
fn authored_artifact_names_are_refused() {
    for name in [".git", ".GIT", "program-keypair.json", "Program-Keypair.JSON"] {
        assert_eq!(
            root_name_check(Some(name.as_bytes())).err(),
            Some("artifact contains repository metadata or a program keypair".to_string()),
            "{name}"
        );
    }
    for name in ["target", ".github", "keypair.json", "program-keypair.json.bak"] {
        assert!(root_name_check(Some(name.as_bytes())).is_ok(), "{name}");
    }
    assert!(root_name_check(None).is_ok());
}

#[test]
fn repository_probes_choose_the_next_step() {
    assert!(matches!(ownership_step(RepositoryProbe::Missing), OwnershipStep::NextAncestor));
    assert!(matches!(ownership_step(RepositoryProbe::Present), OwnershipStep::AskGit));
    match ownership_step(RepositoryProbe::Link) {
        OwnershipStep::Refuse(message) => assert_eq!(message, "repository metadata is a link"),
        _ => panic!("a linked repository must be refused"),
    }
    match ownership_step(RepositoryProbe::Unreadable("permission denied".to_string())) {
        OwnershipStep::Refuse(message) => assert_eq!(message, "permission denied"),
        _ => panic!("an unreadable repository must be refused"),
    }
}

#[test]
fn only_an_empty_git_listing_permits_removal() {
    assert!(ownership_from_git(GitInspection::Listed(true)).is_ok());
    assert_eq!(
        ownership_from_git(GitInspection::Listed(false)).err(),
        Some("artifact contains Git-tracked files".to_string())
    );
    assert_eq!(
        ownership_from_git(GitInspection::Unavailable).err(),
        Some("Git unavailable for artifact inspection".to_string())
    );
    assert_eq!(
        ownership_from_git(GitInspection::PathNotUnicode).err(),
        Some("artifact path is not valid Unicode".to_string())
    );
    assert_eq!(
        ownership_from_git(GitInspection::Failed("timed out".to_string())).err(),
        Some("Git artifact inspection failed: timed out".to_string())
    );
    assert_eq!(
        ownership_from_git(GitInspection::Exited("exit status: 128".to_string())).err(),
        Some("Git artifact inspection exited with exit status: 128".to_string())
    );
}

#[test]
fn git_lists_only_cached_files_under_the_artifact() {
    assert_eq!(
        git_inspection_arguments("/work/project/target"),
        vec![
            "--no-optional-locks",
            "--literal-pathspecs",
            "-c",
            "core.fsmonitor=false",
            "-C",
            "/work/project/target",
            "ls-files",
            "--cached",
            "-z",
            "--",
            ".",
        ]
    );
}
