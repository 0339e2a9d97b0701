use bakare::backup;
use bakare::fs::Fs;
use bakare::repository::Repository;
use bakare::restore;

fn p(s: &str) -> Vec<u8> {
    s.as_bytes().to_vec()
}

fn backup_tree(fs: &mut Fs, source: &str, repository: &str) {
    let source = p(source);
    let repository_path = p(repository);
    let mut repo = Repository::open(fs, &repository_path).unwrap();
    let engine = backup::Engine::new(&source, &repo).unwrap();
    engine.backup(fs, &mut repo).unwrap();
}

fn restore_tree(fs: &mut Fs, repository: &str, target: &str) {
    let repository_path = p(repository);
    let target_path = p(target);
    let mut repo = Repository::open(fs, &repository_path).unwrap();
    let engine = restore::Engine::new(&mut repo, &target_path).unwrap();
    engine.restore_all(fs, &mut repo).unwrap();
}

#[test]
fn restore_multiple_files() {
    let mut fs = Fs::new();
    fs.write(&p("/source/first"), p("some contents"));
    fs.write(&p("/source/second"), p("some contents"));
    fs.write(&p("/source/third"), p("some other contents"));

    backup_tree(&mut fs, "/source", "/repository");
    restore_tree(&mut fs, "/repository", "/target");

    assert_eq!(fs.read(&p("/target/source/first")).unwrap(), &p("some contents"));
    assert_eq!(fs.read(&p("/target/source/second")).unwrap(), &p("some contents"));
    assert_eq!(fs.read(&p("/target/source/third")).unwrap(), &p("some other contents"));
}

#[test]
fn restore_files_after_reopening_repository() {
    let mut fs = Fs::new();
    let repository_path = p("/repository");
    Repository::init(&mut fs, &repository_path).unwrap();

    let original_contents = "some old contents";
    fs.write(&p("/source/some file path"), p(original_contents));

    backup_tree(&mut fs, "/source", "/repository");

    bakare::assertions::restore_all_from_reloaded_repository(
        &mut fs,
        &repository_path,
        &p("/target"),
    )
        .unwrap();

    assert_eq!(fs.read(&p("/target/source/some file path")).unwrap(), &p(original_contents));
}

#[test]
fn restore_older_version_of_file() {
    let mut fs = Fs::new();
    let repository_path = p("/repository");
    Repository::init(&mut fs, &repository_path).unwrap();

    let source_file_full_path = p("/source/some path");
    let old_contents = "some old contents";
    fs.write(&source_file_full_path, p(old_contents));

    backup_tree(&mut fs, "/source", "/repository");

    let old_item =
        bakare::assertions::newest_item(&mut fs, &repository_path, &source_file_full_path).unwrap();
    let old_id = old_item.id();

    let new_contents = "totally new contents";
    fs.write(&source_file_full_path, p(new_contents));
    backup_tree(&mut fs, "/source", "/repository");

    let mut repo = Repository::open(&mut fs, &repository_path).unwrap();
    let item = repo.item_by_id(&old_id).unwrap().unwrap();
    let restore_engine = restore::Engine::new(&mut repo, &p("/target")).unwrap();
    restore_engine.restore(&mut fs, &item).unwrap();

    assert_eq!(fs.read(&p("/target/source/some path")).unwrap(), &p(old_contents));
}

#[test]
fn newer_version_should_be_greater_than_earlier_version() {
    let mut fs = Fs::new();
    let repository_path = p("/repository");
    Repository::init(&mut fs, &repository_path).unwrap();

    let source_file_full_path = p("/source/some path");
    fs.write(&source_file_full_path, p("old"));
    backup_tree(&mut fs, "/source", "/repository");

    let old_item =
        bakare::assertions::newest_item(&mut fs, &repository_path, &source_file_full_path).unwrap();
    let old_version = old_item.version();

    fs.write(&source_file_full_path, p("new"));
    backup_tree(&mut fs, "/source", "/repository");

    let new_item =
        bakare::assertions::newest_item(&mut fs, &repository_path, &source_file_full_path).unwrap();
    let new_version = new_item.version();

    assert!(new_version > old_version);
}

#[test]
fn restore_latest_version_by_default() {
    let mut fs = Fs::new();
    let repository_path = p("/repository");
    Repository::init(&mut fs, &repository_path).unwrap();

    let source_file_full_path = p("/source/some path");
    fs.write(&source_file_full_path, p("old contents"));
    backup_tree(&mut fs, "/source", "/repository");
    fs.write(&source_file_full_path, p("newer contents"));
    backup_tree(&mut fs, "/source", "/repository");
    fs.write(&source_file_full_path, p("newest contents"));
    backup_tree(&mut fs, "/source", "/repository");

    restore_tree(&mut fs, "/repository", "/target");

    assert_eq!(fs.read(&p("/target/source/some path")).unwrap(), &p("newest contents"));
}

#[test]
fn forbid_backup_of_paths_within_repository() {
    let mut fs = Fs::new();
    let repository_path = p("/repository");
    Repository::init(&mut fs, &repository_path).unwrap();
    let repo = Repository::open(&mut fs, &repository_path).unwrap();

    let error = backup::Engine::new(&repository_path, &repo);
    assert!(error.is_err());
}

#[test]
fn backup_of_empty_tree_restores_nothing() {
    let mut fs = Fs::new();
    Repository::init(&mut fs, &p("/repository")).unwrap();
    backup_tree(&mut fs, "/source", "/repository");
    restore_tree(&mut fs, "/repository", "/target");
    let mut target_prefix = p("/target");
    target_prefix.push(b'/');
    assert_eq!(fs.keys_with_prefix(&target_prefix).len(), 0);
}

#[test]
fn skip_paths_without_a_regular_file_silently() {
    let mut fs = Fs::new();
    let repository_path = p("/repository");
    Repository::init(&mut fs, &repository_path).unwrap();
    let mut repo = Repository::open(&mut fs, &repository_path).unwrap();

    let result = repo.store(&mut fs, &p("/source/not-there"));
    assert!(result.is_ok());
    let looked_up = repo.newest_item_by_source_path(&p("/source/not-there")).unwrap();
    assert!(looked_up.is_none());
}
