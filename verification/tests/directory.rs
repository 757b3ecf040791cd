use snapfaas::dclabel::{Clause, Component, DCLabel};
use snapfaas::labeled_fs::dir::Directory;
use snapfaas::labeled_fs::direntry::{DirEntry, LabeledDirEntry};
use snapfaas::labeled_fs::file::File;
use snapfaas::labeled_fs::path::split_path;
use snapfaas::labeled_fs::utils::get_new_dir_bytes;
use snapfaas::labeled_fs::Error;

fn formula(clauses: &[&[&str]]) -> Component {
    Component::formula(
        clauses
            .iter()
            .map(|c| Clause::new(c.iter().map(|p| p.to_string()).collect()))
            .collect(),
    )
}

fn label(secrecy: &[&[&str]], integrity: &[&[&str]]) -> DCLabel {
    DCLabel::new(formula(secrecy), formula(integrity))
}

fn filled() -> Directory {
    let mut dir = Directory::new();
    let cur = DCLabel::bottom();
    dir.create("a", &cur, DirEntry::D, label(&[&["x"]], &[&["y", "z"]]), 7).unwrap();
    dir.create("b.txt", &cur, DirEntry::F, DCLabel::public(), u64::MAX).unwrap();
    dir.create("gr\u{fc}n", &cur, DirEntry::F, DCLabel::top(), 0).unwrap();
    dir.create("", &cur, DirEntry::D, DCLabel::new(Component::dc_false(), Component::dc_false()), 1)
        .unwrap();
    dir
}

#[test]
fn new_directory_is_empty() {
    let dir = Directory::new();
    assert_eq!(dir.list(), Vec::<String>::new());
    assert_eq!(dir.get("a"), Err(Error::BadPath));
    assert_eq!(dir.to_vec(), Vec::<u8>::new());
    assert_eq!(get_new_dir_bytes(), Vec::<u8>::new());
    assert_eq!(Directory::from_vec(vec![]), Some(Directory::new()));
}

#[test]
fn directory_keeps_what_is_created() {
    let dir = filled();
    assert_eq!(dir.list(), vec!["a", "b.txt", "gr\u{fc}n", ""]);
    assert_eq!(
        dir.get("a"),
        Ok(&LabeledDirEntry::new(label(&[&["x"]], &[&["y", "z"]]), DirEntry::D, 7))
    );
    let e = dir.get("b.txt").unwrap();
    assert_eq!(e.entry_type(), DirEntry::F);
    assert_eq!(e.uid(), u64::MAX);
    assert_eq!(dir.get("B.txt"), Err(Error::BadPath));
    assert_eq!(dir.get("a/"), Err(Error::BadPath));
}

#[test]
fn directory_refuses_a_name_twice() {
    let mut dir = filled();
    let before = dir.clone();
    assert_eq!(
        dir.create("a", &DCLabel::bottom(), DirEntry::F, DCLabel::public(), 9),
        Err(Error::BadPath)
    );
    assert_eq!(dir, before);
}

#[test]
fn directory_refuses_a_label_out_of_reach() {
    let mut dir = filled();
    let before = dir.clone();
    let cur = label(&[&["yue"]], &[]);
    // the name is free, the label is not high enough
    assert_eq!(
        dir.create("new", &cur, DirEntry::F, DCLabel::public(), 9),
        Err(Error::BadTargetLabel)
    );
    // the label is judged before the name
    assert_eq!(
        dir.create("a", &cur, DirEntry::F, DCLabel::public(), 9),
        Err(Error::BadTargetLabel)
    );
    assert_eq!(dir, before);
    assert_eq!(dir.create("new", &cur, DirEntry::F, label(&[&["yue"], &["amit"]], &[]), 9), Ok(()));
    assert_eq!(dir.list().len(), 5);
}

#[test]
fn directory_comes_back_from_its_stored_form() {
    let dir = filled();
    let bytes = dir.to_vec();
    let back = Directory::from_vec(bytes.clone()).unwrap();
    assert_eq!(back, dir);
    assert_eq!(back.to_vec(), bytes);
}

#[test]
fn stored_form_of_one_entry() {
    let mut dir = Directory::new();
    dir.create("a", &DCLabel::bottom(), DirEntry::F, label(&[&["p"]], &[]), 300).unwrap();
    assert_eq!(
        dir.to_vec(),
        vec![
            0x0a, 0x13, // one entry of 19 bytes
            0x0a, 0x01, b'a', // the name
            0x10, 0x01, // a file
            0x18, 0xac, 0x02, // the object id
            0x22, 0x09, // the label
            0x0a, 0x05, 0x0a, 0x03, 0x0a, 0x01, b'p', // secrecy: one clause, one principal
            0x12, 0x00, // integrity: no clause
        ]
    );
}

#[test]
fn directory_rejects_what_is_no_stored_form() {
    let mut dir = Directory::new();
    dir.create("a", &DCLabel::bottom(), DirEntry::D, DCLabel::public(), 1).unwrap();
    let one = dir.to_vec();
    // the same name twice
    let mut twice = one.clone();
    twice.extend_from_slice(&one);
    assert_eq!(Directory::from_vec(twice), None);
    // cut short
    assert_eq!(Directory::from_vec(one[..one.len() - 1].to_vec()), None);
    // a kind that is none
    let mut bad = one.clone();
    let at = bad.iter().position(|b| *b == 0x10).unwrap();
    bad[at + 1] = 2;
    assert_eq!(Directory::from_vec(bad), None);
    // an entry without a label
    assert_eq!(Directory::from_vec(vec![0x0a, 0x07, 0x0a, 0x01, b'a', 0x10, 0x00, 0x18, 0x01]), None);
    assert_eq!(Directory::from_vec(vec![0xff]), None);
    assert_eq!(Directory::from_vec(b"{}".to_vec()), None);
}

#[test]
fn file_holds_bytes() {
    let mut file = File::new();
    assert_eq!(file.data(), Vec::<u8>::new());
    assert_eq!(file.to_vec(), Vec::<u8>::new());
    file.write(b"test message".to_vec());
    assert_eq!(file.data(), b"test message".to_vec());
    file.write(b"short".to_vec());
    assert_eq!(file.data(), b"short".to_vec());
    assert_eq!(File::from_vec(file.to_vec()), file);
    assert_eq!(File::from_vec(vec![0, 255]).to_vec(), vec![0, 255]);
}

#[test]
fn entries_are_opened() {
    let entry = LabeledDirEntry::new(label(&[&["yue"]], &[&["gh_repo"]]), DirEntry::F, 42);
    let mut cur = DCLabel::public();
    assert_eq!(entry.unlabel(&mut cur), (DirEntry::F, 42));
    assert_eq!(cur, DCLabel::new(formula(&[&["yue"]]), Component::dc_true()));
    assert_eq!(entry.unlabel_write_check(&cur), Err(Error::Unauthorized));
    assert_eq!(cur, DCLabel::new(formula(&[&["yue"]]), Component::dc_true()));
    let cur = label(&[], &[&["gh_repo"]]);
    assert_eq!(entry.unlabel_write_check(&cur), Ok((DirEntry::F, 42)));
    assert_eq!(entry.duplicate(), entry);
}

#[test]
fn root_is_a_directory_that_taints_nobody() {
    let root = LabeledDirEntry::root();
    assert_eq!(root.uid(), 0);
    assert_eq!(root.entry_type(), DirEntry::D);
    assert_eq!(root.label, DCLabel::bottom());
    let mut cur = label(&[&["a"]], &[&["b"]]);
    root.unlabel(&mut cur);
    assert_eq!(cur, label(&[&["a"]], &[&["b"]]));
}

#[test]
fn paths_are_split_at_separators() {
    assert_eq!(split_path("/"), Vec::<String>::new());
    assert_eq!(split_path(""), Vec::<String>::new());
    assert_eq!(split_path("///"), Vec::<String>::new());
    assert_eq!(split_path("/gh_repo/yue"), vec!["gh_repo", "yue"]);
    assert_eq!(split_path("gh_repo/yue/"), vec!["gh_repo", "yue"]);
    assert_eq!(split_path("//a///b"), vec!["a", "b"]);
    assert_eq!(split_path("/func4/mydata.txt"), vec!["func4", "mydata.txt"]);
    assert_eq!(split_path("/gr\u{fc}n/\u{4e16}\u{754c}"), vec!["gr\u{fc}n", "\u{4e16}\u{754c}"]);
    assert_eq!(split_path("a"), vec!["a"]);
    // a component that stands for the directory that it is in is no step
    assert_eq!(split_path("/a/./b"), vec!["a", "b"]);
    assert_eq!(split_path("."), Vec::<String>::new());
    assert_eq!(split_path("./a/."), vec!["a"]);
    assert_eq!(split_path("/./././"), Vec::<String>::new());
    assert_eq!(split_path("/a/../.b/c."), vec!["a", "..", ".b", "c."]);
}
