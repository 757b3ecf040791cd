use snapfaas::dclabel::{Clause, Component, DCLabel};
use snapfaas::distributed_db::local::LocalDb;
use snapfaas::distributed_db::{DbService, Error as DbError, Session};
use snapfaas::labeled_fs;
use snapfaas::labeled_fs::{create_dir, create_file, list, read, Error};

fn formula(clauses: &[&[&str]]) -> Component {
    Component::formula(
        clauses
            .iter()
            .map(|c| Clause::new(c.iter().map(|p| p.to_string()).collect()))
            .collect(),
    )
}

fn label(secrecy: &[&[&str]], integrity: &[&[&str]]) -> DCLabel {
    DCLabel::new(formula(secrecy), formula(integrity))
}

fn public_with(integrity: &[&[&str]]) -> DCLabel {
    DCLabel::new(Component::dc_true(), formula(integrity))
}

#[test]
fn test_storage_create_dir_list_fail() {
    let mut db_client = Session::new(LocalDb::new());

    // create `/gh_repo`
    let target_label = public_with(&[&["gh_repo"]]);
    let mut cur_label = DCLabel::bottom();
    assert!(create_dir("/", "gh_repo", target_label, &mut cur_label, &mut db_client).is_ok());

    // list
    let mut cur_label = DCLabel::public();
    assert_eq!(
        list("/", &mut cur_label, &mut db_client).unwrap(),
        vec![String::from("gh_repo"); 1]
    );

    // already exists
    let target_label = public_with(&[&["gh_repo"]]);
    let mut cur_label = DCLabel::bottom();
    assert_eq!(
        create_dir("/", "gh_repo", target_label, &mut cur_label, &mut db_client).unwrap_err(),
        Error::BadPath
    );

    // missing path components
    let target_label = label(&[&["yue"]], &[&["gh_repo"]]);
    let mut cur_label = DCLabel::public();
    assert_eq!(
        create_dir("/gh_repo/yue", "yue", target_label, &mut cur_label, &mut db_client)
            .unwrap_err(),
        Error::BadPath
    );

    // label too high
    let target_label = label(&[&["yue"]], &[&["gh_repo"]]);
    let mut cur_label = target_label.clone();
    assert_eq!(
        create_dir("/gh_repo", "yue", target_label, &mut cur_label, &mut db_client).unwrap_err(),
        Error::Unauthorized
    );

    // label too high
    let target_label = label(&[&["yue"]], &[&["gh_repo"]]);
    let mut cur_label = DCLabel::new(formula(&[&["yue"]]), Component::dc_true());
    assert_eq!(
        create_dir("/gh_repo", "yue", target_label, &mut cur_label, &mut db_client).unwrap_err(),
        Error::Unauthorized
    );

    // create /gh_repo/yue
    let target_label = label(&[&["yue"]], &[&["gh_repo"]]);
    let mut cur_label = public_with(&[&["gh_repo"]]);
    assert!(create_dir("/gh_repo", "yue", target_label, &mut cur_label, &mut db_client).is_ok());

    // Unauthorized not BadPath
    let target_label = label(&[&["yue"]], &[&["gh_repo"]]);
    let mut cur_label = DCLabel::public();
    assert_eq!(
        create_dir("/gh_repo", "yue", target_label, &mut cur_label, &mut db_client).unwrap_err(),
        Error::Unauthorized
    );
}

#[test]
fn test_storage_create_file_write_read() {
    let mut db_client = Session::new(LocalDb::new());

    // create `/func4`
    let mut cur_label = DCLabel::bottom();
    let target_label = label(&[&["func4"]], &[&["func4"]]);
    assert!(create_dir("/", "func4", target_label, &mut cur_label, &mut db_client).is_ok());

    // create `/func4/mydata.txt`
    // the check for writing raises nothing: cur_label stays <true, func4>, which can
    // flow to the target label <user2, func4>
    let mut cur_label = public_with(&[&["func4"]]);
    let target_label = label(&[&["user2"]], &[&["func4"]]);
    assert_eq!(
        create_file("/func4", "mydata.txt", target_label, &mut cur_label, &mut db_client),
        Ok(())
    );
    assert_eq!(cur_label, public_with(&[&["func4"]]));
    // once cur_label is <func4, func4> it cannot flow to the target label <user2, func4>
    let mut raised = label(&[&["func4"]], &[&["func4"]]);
    let target_label = label(&[&["user2"]], &[&["func4"]]);
    assert_eq!(
        create_file("/func4", "other.txt", target_label, &mut raised, &mut db_client).unwrap_err(),
        Error::BadTargetLabel
    );
    // <func4, func4> can flow to <user2/\func4, func4>
    let target_label = label(&[&["user2"], &["func4"]], &[&["func4"]]);
    assert!(
        create_file("/func4", "mydata2.txt", target_label, &mut cur_label, &mut db_client).is_ok()
    );
    assert_eq!(
        read("/func4/mydata.txt", &mut cur_label, &mut db_client).unwrap(),
        Vec::<u8>::new()
    );
    assert_eq!(
        read("/func4/mydata2.txt", &mut cur_label, &mut db_client).unwrap(),
        Vec::<u8>::new()
    );
    // the reader of `/func4` cannot write what is less secret than `/func4`
    assert_eq!(
        labeled_fs::write("/func4/mydata.txt", vec![1], &mut cur_label, &mut db_client),
        Err(Error::Unauthorized)
    );

    // write read
    let text = "test message";
    let data = text.as_bytes().to_vec();
    assert!(labeled_fs::write("/func4/mydata2.txt", data.clone(), &mut cur_label, &mut db_client).is_ok());
    assert_eq!(read("/func4/mydata2.txt", &mut cur_label, &mut db_client).unwrap(), data);

    //// overwrite read
    let text = "test message test message";
    let data = text.as_bytes().to_vec();
    assert!(labeled_fs::write("/func4/mydata2.txt", data.clone(), &mut cur_label, &mut db_client).is_ok());
    assert_eq!(read("/func4/mydata2.txt", &mut cur_label, &mut db_client).unwrap(), data);
}

/// A service on which another writer enters `other` into the root directory
/// just before the first compare-and-swap arrives.
struct Racing {
    inner: Option<LocalDb>,
    raced: bool,
}

impl Racing {
    fn new() -> Racing {
        Racing { inner: Some(LocalDb::new()), raced: false }
    }

    fn db(&mut self) -> &mut LocalDb {
        self.inner.as_mut().unwrap()
    }
}

impl DbService for Racing {
    fn get(&mut self, key: Vec<u8>) -> Result<Vec<u8>, DbError> {
        self.db().get(key)
    }

    fn put(&mut self, key: Vec<u8>, value: Vec<u8>) -> Result<Vec<u8>, DbError> {
        self.db().put(key, value)
    }

    fn add(&mut self, key: Vec<u8>, value: Vec<u8>) -> Result<Vec<u8>, DbError> {
        self.db().add(key, value)
    }

    fn cas(
        &mut self,
        key: Vec<u8>,
        expected: Option<Vec<u8>>,
        value: Vec<u8>,
    ) -> Result<Vec<u8>, DbError> {
        if !self.raced {
            self.raced = true;
            let mut other = Session::new(self.inner.take().unwrap());
            let mut cur_label = DCLabel::bottom();
            create_dir("/", "other", DCLabel::public(), &mut cur_label, &mut other).unwrap();
            self.inner = Some(other.into_inner());
        }
        self.db().cas(key, expected, value)
    }

    fn scan(&mut self, dir: Vec<u8>) -> Result<Vec<u8>, DbError> {
        self.db().scan(dir)
    }
}

#[test]
fn concurrent_creations_are_both_kept() {
    let mut db_client = Session::new(Racing::new());
    let mut cur_label = DCLabel::bottom();
    assert_eq!(create_dir("/", "mine", DCLabel::public(), &mut cur_label, &mut db_client), Ok(()));
    let mut cur_label = DCLabel::public();
    assert_eq!(
        list("/", &mut cur_label, &mut db_client).unwrap(),
        vec![String::from("other"), String::from("mine")]
    );
}

#[test]
fn creation_that_loses_the_name_in_a_race_is_a_bad_path() {
    let mut db_client = Session::new(Racing::new());
    let mut cur_label = DCLabel::bottom();
    assert_eq!(
        create_dir("/", "other", DCLabel::public(), &mut cur_label, &mut db_client),
        Err(Error::BadPath)
    );
}

#[test]
fn root_path_is_no_file() {
    let mut db_client = Session::new(LocalDb::new());
    let mut cur_label = DCLabel::public();
    assert_eq!(read("/", &mut cur_label, &mut db_client), Err(Error::BadPath));
    assert_eq!(
        labeled_fs::write("/", vec![1], &mut cur_label, &mut db_client),
        Err(Error::Unauthorized)
    );
    let mut cur_label = DCLabel::bottom();
    assert_eq!(labeled_fs::write("/", vec![1], &mut cur_label, &mut db_client), Err(Error::BadPath));
}

#[test]
fn several_creations_are_listed_with_what_was_given() {
    let mut db_client = Session::new(LocalDb::new());
    let parent = public_with(&[&["p"]]);
    let mut cur_label = DCLabel::bottom();
    assert_eq!(create_dir("/", "p", parent.clone(), &mut cur_label, &mut db_client), Ok(()));
    let given = vec![
        ("a", label(&[&["x"]], &[&["p"]]), true),
        ("b.txt", label(&[&["x"], &["y", "z"]], &[&["p", "q"]]), false),
        ("c", public_with(&[&["p"]]), true),
    ];
    for (name, target, dir) in given.iter() {
        let mut cur_label = parent.clone();
        let r = if *dir {
            create_dir("/p", name, target.clone(), &mut cur_label, &mut db_client)
        } else {
            create_file("/p", name, target.clone(), &mut cur_label, &mut db_client)
        };
        assert_eq!(r, Ok(()));
    }
    let mut cur_label = DCLabel::public();
    assert_eq!(list("/p", &mut cur_label, &mut db_client), Ok(vec![
        "a".to_string(),
        "b.txt".to_string(),
        "c".to_string()
    ]));
    for (name, target, dir) in given.iter() {
        let mut cur_label = DCLabel::public();
        let path = format!("/p/{}", name);
        let entry = labeled_fs::get_direntry(&path, &mut cur_label, &mut db_client).unwrap();
        assert_eq!(&entry.label, target);
        assert_eq!(entry.entry_type() == snapfaas::labeled_fs::direntry::DirEntry::D, *dir);
        assert_ne!(entry.uid(), 0);
    }
}
