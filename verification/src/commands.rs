//! What the file commands decide, given what the account and the file tree answer.
use crate::display::push_decimal;
use crate::text::same_text;
use vstd::prelude::*;
use vstd::string::*;

verus! {

use crate::display::decimal;

/// Why a request to the file tree failed, as far as a command tells failures apart.
#[derive(Clone, Copy)]
pub enum ErrKind {
    AccountNonexistent,
    RootNonexistent,
    FileNonexistent,
    Other,
}

/// How the user names a file.
pub enum FileInput {
    /// By its id.
    Id(u128),
    /// By its path.
    Path(String),
}

/// A command needs an account. It is told so where there is none, and not where the
/// account could not be read for another reason.
pub fn ensure_account(error: Option<ErrKind>) -> (r: Result<(), String>)
    ensures
        match error {
            Some(ErrKind::AccountNonexistent) => r matches Err(m) && m@
                == "no account found, run lockbook account import"@,
            _ => r == Ok::<(), String>(()),
        },
{
    match error {
        Some(ErrKind::AccountNonexistent) => Err(
            "no account found, run lockbook account import".to_owned(),
        ),
        _ => Ok(()),
    }
}

/// A command needs the root of the file tree. It is told so where there is none, and not
/// where the root could not be read for another reason.
pub fn ensure_root(error: Option<ErrKind>) -> (r: Result<(), String>)
    ensures
        match error {
            Some(ErrKind::RootNonexistent) => r matches Err(m) && m@
                == "no root found, have you synced yet?"@,
            _ => r == Ok::<(), String>(()),
        },
{
    match error {
        Some(ErrKind::RootNonexistent) => Err("no root found, have you synced yet?".to_owned()),
        _ => Ok(()),
    }
}

/// The path at which a file is created: files are created by path only.
pub fn path_to_create(target: FileInput) -> (r: Result<String, String>)
    ensures
        match target {
            FileInput::Path(path) => r == Ok::<String, String>(path),
            FileInput::Id(_) => r matches Err(m) && m@ == "cannot create a file using ids"@,
        },
{
    match target {
        FileInput::Path(path) => Ok(path),
        FileInput::Id(_) => Err("cannot create a file using ids".to_owned()),
    }
}

/// What the command for a new file does after it has looked for the file.
pub enum CreateStep {
    /// The file is there: nothing.
    Done,
    /// The file is not there: create it.
    Create,
    /// Whether the file is there is not known: report the error.
    Fail,
}

/// A new file is created exactly where the search for it says that there is none.
pub fn after_lookup(error: Option<ErrKind>) -> (r: CreateStep)
    ensures
        r == (match error {
            None => CreateStep::Done,
            Some(ErrKind::FileNonexistent) => CreateStep::Create,
            Some(_) => CreateStep::Fail,
        }),
{
    match error {
        None => CreateStep::Done,
        Some(ErrKind::FileNonexistent) => CreateStep::Create,
        Some(_) => CreateStep::Fail,
    }
}

/// What a deletion is about: the file, and how many files it takes with it.
pub open spec fn deletion(target: Seq<char>, tree_size: Option<u64>) -> Seq<char> {
    let file = "delete '"@ + target + "'"@;
    match tree_size {
        None => file,
        Some(n) => if n == 1 {
            file
        } else if n == 2 {
            file + " and its 1 child"@
        } else {
            file + " and its "@ + decimal((n - 1) as nat) + " children"@
        },
    }
}

/// The question that a deletion begins with.
pub open spec fn deletion_question(target: Seq<char>, tree_size: Option<u64>) -> Seq<char> {
    "are you sure you want to "@ + deletion(target, tree_size) + "? [y/n]: "@
}

/// The question that the deletion of `target` begins with. Of a folder, `tree_size` is
/// the number of files in it, with the folder itself.
pub fn delete_question(target: &str, tree_size: Option<u64>) -> (r: String)
    requires
        tree_size matches Some(n) ==> n >= 1,
    ensures
        r@ == deletion_question(target@, tree_size),
{
    let mut phrase = "delete '".to_owned();
    phrase.append(target);
    phrase.append("'");
    if let Some(n) = tree_size {
        let count: u64 = n - 1;
        if count == 1 {
            phrase.append(" and its 1 child");
        } else if count > 1 {
            phrase.append(" and its ");
            push_decimal(&mut phrase, count as u128);
            phrase.append(" children");
        }
    }
    let mut out = "are you sure you want to ".to_owned();
    out.append(phrase.as_str());
    out.append("? [y/n]: ");
    out
}

/// An answer that lets a deletion go ahead: `y` or `Y`, and nothing else.
pub open spec fn is_yes(answer: Seq<char>) -> bool {
    answer == "y"@ || answer == "Y"@
}

/// What the command for a deletion does next.
pub enum DeleteStep {
    /// Put the question to the user.
    Ask,
    /// Delete the file.
    Delete,
    /// Leave the file alone.
    Abort,
}

/// What the command for a deletion does next, given whether it was forced and what the
/// user answered, once asked. Nothing is deleted unless it was forced or confirmed, and
/// a forced deletion asks nothing.
pub fn delete_step(force: bool, answer: Option<&str>) -> (r: DeleteStep)
    ensures
        r == (if force {
            DeleteStep::Delete
        } else {
            match answer {
                None => DeleteStep::Ask,
                Some(a) => if is_yes(a@) {
                    DeleteStep::Delete
                } else {
                    DeleteStep::Abort
                },
            }
        }),
        r is Ask <==> !force && answer is None,
        r is Delete <==> force || (answer matches Some(a) && a@.len() == 1 && (a@[0] == 'y'
            || a@[0] == 'Y')),
        r is Abort <==> !force && (answer matches Some(a) && !(a@.len() == 1 && (a@[0] == 'y' || a@[0] == 'Y'))),
{
    proof {
        if let Some(a) = answer {
            law_only_one_letter_is_a_yes(a@);
        }
    }
    if force {
        return DeleteStep::Delete;
    }
    match answer {
        None => DeleteStep::Ask,
        Some(a) => if same_text(a, "y") || same_text(a, "Y") {
            DeleteStep::Delete
        } else {
            DeleteStep::Abort
        },
    }
}

/// Of all answers, only the one letter `y`, small or large, is a yes: every longer answer,
/// every other letter and the empty answer is none.
pub proof fn law_only_one_letter_is_a_yes(answer: Seq<char>)
    ensures
        is_yes(answer) <==> answer.len() == 1 && (answer[0] == 'y' || answer[0] == 'Y'),
{
    reveal_strlit("y");
    reveal_strlit("Y");
    if answer.len() == 1 {
        if answer[0] == 'y' {
            assert(answer =~= "y"@);
        }
        if answer[0] == 'Y' {
            assert(answer =~= "Y"@);
        }
    }
}

/// The question names the file between quotes, and behind it, for a folder with something
/// in it, the number of files that go with it: all of the folder but the folder itself.
pub proof fn law_the_question_names_what_goes(target: Seq<char>, n: u64)
    requires
        n >= 3,
    ensures
        deletion_question(target, None) == "are you sure you want to delete '"@ + target
            + "'? [y/n]: "@,
        deletion_question(target, Some(1)) == deletion_question(target, None),
        deletion_question(target, Some(2)) == "are you sure you want to delete '"@ + target
            + "' and its 1 child? [y/n]: "@,
        deletion_question(target, Some(n)) == "are you sure you want to delete '"@ + target
            + "' and its "@ + decimal((n - 1) as nat) + " children? [y/n]: "@,
{
    reveal_strlit("are you sure you want to delete '");
    reveal_strlit("are you sure you want to ");
    reveal_strlit("delete '");
    reveal_strlit("'");
    reveal_strlit("? [y/n]: ");
    reveal_strlit("'? [y/n]: ");
    reveal_strlit(" and its 1 child");
    reveal_strlit("' and its 1 child? [y/n]: ");
    reveal_strlit(" and its ");
    reveal_strlit("' and its ");
    reveal_strlit(" children");
    reveal_strlit(" children? [y/n]: ");
    assert(deletion_question(target, None) =~= "are you sure you want to delete '"@ + target
        + "'? [y/n]: "@);
    assert(deletion_question(target, Some(2)) =~= "are you sure you want to delete '"@ + target
        + "' and its 1 child? [y/n]: "@);
    assert(deletion_question(target, Some(n)) =~= "are you sure you want to delete '"@ + target
        + "' and its "@ + decimal((n - 1) as nat) + " children? [y/n]: "@);
}

} // verus!
