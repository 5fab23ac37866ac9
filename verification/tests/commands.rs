use lockbook::commands::{
    after_lookup, delete_question, delete_step, ensure_account, ensure_root, path_to_create,
    CreateStep, DeleteStep, ErrKind, FileInput,
};

#[test]
fn commands_need_an_account() {
    assert_eq!(ensure_account(None), Ok(()));
    assert_eq!(
        ensure_account(Some(ErrKind::AccountNonexistent)),
        Err("no account found, run lockbook account import".to_string())
    );
    assert_eq!(ensure_account(Some(ErrKind::RootNonexistent)), Ok(()));
    assert_eq!(ensure_account(Some(ErrKind::Other)), Ok(()));
}

#[test]
fn commands_need_a_root() {
    assert_eq!(ensure_root(None), Ok(()));
    assert_eq!(
        ensure_root(Some(ErrKind::RootNonexistent)),
        Err("no root found, have you synced yet?".to_string())
    );
    assert_eq!(ensure_root(Some(ErrKind::AccountNonexistent)), Ok(()));
}

#[test]
fn files_are_created_by_path() {
    assert_eq!(
        path_to_create(FileInput::Path("/a/b.md".to_string())),
        Ok("/a/b.md".to_string())
    );
    assert_eq!(
        path_to_create(FileInput::Id(7)),
        Err("cannot create a file using ids".to_string())
    );
}

#[test]
fn files_are_created_where_there_are_none() {
    assert!(matches!(after_lookup(None), CreateStep::Done));
    assert!(matches!(
        after_lookup(Some(ErrKind::FileNonexistent)),
        CreateStep::Create
    ));
    assert!(matches!(after_lookup(Some(ErrKind::Other)), CreateStep::Fail));
    assert!(matches!(
        after_lookup(Some(ErrKind::RootNonexistent)),
        CreateStep::Fail
    ));
}

#[test]
fn deletions_ask_first() {
    assert_eq!(
        delete_question("/a.md", None),
        "are you sure you want to delete '/a.md'? [y/n]: "
    );
    assert_eq!(
        delete_question("/d/", Some(1)),
        "are you sure you want to delete '/d/'? [y/n]: "
    );
    assert_eq!(
        delete_question("/d/", Some(2)),
        "are you sure you want to delete '/d/' and its 1 child? [y/n]: "
    );
    assert_eq!(
        delete_question("/d/", Some(13)),
        "are you sure you want to delete '/d/' and its 12 children? [y/n]: "
    );
}

#[test]
fn deletions_are_forced_or_confirmed() {
    assert!(matches!(delete_step(false, None), DeleteStep::Ask));
    assert!(matches!(delete_step(true, None), DeleteStep::Delete));
    assert!(matches!(delete_step(false, Some("y")), DeleteStep::Delete));
    assert!(matches!(delete_step(false, Some("Y")), DeleteStep::Delete));
    assert!(matches!(delete_step(false, Some("yes")), DeleteStep::Abort));
    assert!(matches!(delete_step(false, Some("n")), DeleteStep::Abort));
    assert!(matches!(delete_step(false, Some("")), DeleteStep::Abort));
    assert!(matches!(delete_step(true, Some("n")), DeleteStep::Delete));
}
