//! Shortcuts for what lies directly under the root directory.

use crate::dclabel::{Clause, Component, ComponentView, DCLabel, LabelView};
use crate::distributed_db::{extends, since, DbService, Session};
use crate::labeled_fs::dir::{dir_bytes, Directory};
use crate::labeled_fs::direntry::DirEntry;
use crate::labeled_fs::{create_dir, create_run, Error};
use vstd::prelude::*;

verus! {

/// The path of the root directory.
pub const ROOT: &'static str = "/";

/// The stored form of an empty directory.
pub fn get_new_dir_bytes() -> (r: Vec<u8>)
    ensures
        r@ == dir_bytes(Seq::empty()),
{
    Directory::new().to_vec()
}

/// The component with the single clause of the single principal `name`.
pub open spec fn only(name: Seq<char>) -> ComponentView {
    ComponentView::Formula(seq![seq![name]])
}

/// The label of the directory of a function: anyone may read it, and only
/// the function vouches for it.
pub open spec fn function_label(name: Seq<char>) -> LabelView {
    LabelView { secrecy: ComponentView::Formula(Seq::empty()), integrity: only(name) }
}

/// The label of the directory of a user: only the user may read it, and
/// only the user vouches for it.
pub open spec fn user_label(user: Seq<char>) -> LabelView {
    LabelView { secrecy: only(user), integrity: only(user) }
}

/// The component with the single clause of the single principal `name`.
fn single(name: &str) -> (r: Component)
    ensures
        r@ == only(name@),
{
    let mut principals: Vec<String> = Vec::new();
    principals.push(name.to_owned());
    let mut clauses: Vec<Clause> = Vec::new();
    clauses.push(Clause { principals });
    let r = Component::DCFormula(clauses);
    assert(r@ =~= only(name@)) by {
        assert(crate::dclabel::clauses_view(clauses@) =~= seq![seq![name@]]) by {
            assert(clauses@[0]@ =~= seq![name@]);
        }
    }
    r
}

/// Creates the directory of the function `name` under the root directory,
/// with the least label as the caller's.
pub fn create_root_function_dir<D: DbService>(name: &str, db_client: &mut Session<D>) -> (r: Result<
    (),
    Error,
>)
    ensures
        extends(old(db_client).history(), final(db_client).history()),
        exists|after: LabelView|
            create_run(
                Seq::empty(),
                name@,
                function_label(name@),
                DirEntry::D,
                dir_bytes(Seq::empty()),
                LabelView::bottom(),
                since(old(db_client).history(), final(db_client).history()),
                r,
                after,
            ),
{
    let mut cur_label = DCLabel::bottom();
    let label = DCLabel::new(Component::dc_true(), single(name));
    proof {
        reveal_strlit("/");
        crate::labeled_fs::path::lemma_root_path();
        assert(ROOT@ =~= seq![crate::labeled_fs::path::SEPARATOR]);
        assert(label@ == function_label(name@));
    }
    let r = create_dir(ROOT, name, label, &mut cur_label, db_client);
    assert(create_run(
        Seq::empty(),
        name@,
        function_label(name@),
        DirEntry::D,
        dir_bytes(Seq::empty()),
        LabelView::bottom(),
        since(old(db_client).history(), db_client.history()),
        r,
        cur_label@,
    ));
    r
}

/// Creates the directory of the user `user` under the root directory, with
/// the least label as the caller's.
pub fn create_root_user_dir<D: DbService>(user: &str, db_client: &mut Session<D>) -> (r: Result<(), Error>)
    ensures
        extends(old(db_client).history(), final(db_client).history()),
        exists|after: LabelView|
            create_run(
                Seq::empty(),
                user@,
                user_label(user@),
                DirEntry::D,
                dir_bytes(Seq::empty()),
                LabelView::bottom(),
                since(old(db_client).history(), final(db_client).history()),
                r,
                after,
            ),
{
    let mut cur_label = DCLabel::bottom();
    let label = DCLabel::new(single(user), single(user));
    proof {
        reveal_strlit("/");
        crate::labeled_fs::path::lemma_root_path();
        assert(ROOT@ =~= seq![crate::labeled_fs::path::SEPARATOR]);
        assert(label@ == user_label(user@));
    }
    let r = create_dir(ROOT, user, label, &mut cur_label, db_client);
    assert(create_run(
        Seq::empty(),
        user@,
        user_label(user@),
        DirEntry::D,
        dir_bytes(Seq::empty()),
        LabelView::bottom(),
        since(old(db_client).history(), db_client.history()),
        r,
        cur_label@,
    ));
    r
}

} // verus!
