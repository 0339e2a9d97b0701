use bakare::assertions::data_weight;
use bakare::backup;
use bakare::error::BakareError;
use bakare::fs::Fs;
use bakare::item_id::ItemId;
use bakare::laws;
use bakare::repository::Repository;
use bakare::restore;

fn p(s: &str) -> Vec<u8> {
    s.as_bytes().to_vec()
}

fn backup_tree(fs: &mut Fs, source: &str, repository: &str) {
    let source = p(source);
    let repository_path = p(repository);
    let mut repo = Repository::open(fs, &repository_path).unwrap();
    let engine = backup::Engine::new(&source, &repo).unwrap();
    engine.backup(fs, &mut repo).unwrap();
}

#[test]
fn store_two_equal_files_once() {
    let mut fs = Fs::new();
    let repository_path = p("/repository");
    Repository::init(&mut fs, &repository_path).unwrap();
    assert_eq!(data_weight(&fs, &repository_path).unwrap(), 0);

    fs.write(&p("/source/a"), p("x"));
    fs.write(&p("/source/b"), p("x"));
    fs.write(&p("/source/c"), p("y"));
    backup_tree(&mut fs, "/source", "/repository");

    // Two distinct contents of one byte each: exactly two stored objects.
    assert_eq!(data_weight(&fs, &repository_path).unwrap(), 2);
}

#[test]
fn keep_weight_when_storing_equal_content_again() {
    let mut fs = Fs::new();
    let repository_path = p("/repository");
    Repository::init(&mut fs, &repository_path).unwrap();
    let mut repo = Repository::open(&mut fs, &repository_path).unwrap();

    fs.write(&p("/source/1"), p("abc"));
    repo.store(&mut fs, &p("/source/1")).unwrap();
    let first_weight = data_weight(&fs, &repository_path).unwrap();
    assert!(first_weight > 0);

    fs.write(&p("/source/2"), p("abc"));
    repo.store(&mut fs, &p("/source/2")).unwrap();
    let second_weight = data_weight(&fs, &repository_path).unwrap();
    assert_eq!(first_weight, second_weight);
}

#[test]
fn round_trip_reproduces_tree() {
    let mut fs = Fs::new();
    fs.write(&p("/source/a"), p("alpha"));
    fs.write(&p("/source/deep/b"), p("beta"));

    laws::backup_then_restore_reproduces_tree(
        &mut fs,
        &p("/source"),
        &p("/repository"),
        &p("/target"),
    )
        .unwrap();

    assert_eq!(fs.read(&p("/target/source/a")).unwrap(), &p("alpha"));
    assert_eq!(fs.read(&p("/target/source/deep/b")).unwrap(), &p("beta"));
}

#[test]
fn lock_round_trip_leaves_no_lockfiles() {
    let mut fs = Fs::new();
    fs.write(&p("/repository/unrelated"), p("contents"));
    let before = fs.keys_with_prefix(&p("/")).len();

    laws::lock_then_release_leaves_no_lockfiles(&mut fs, &p("/repository")).unwrap();

    let after = fs.keys_with_prefix(&p("/")).len();
    assert_eq!(before, after);
}

#[test]
fn initialization_creates_a_loadable_empty_repository() {
    let mut fs = Fs::new();
    let repository_path = p("/repository");

    let repo = laws::initialized_repository_opens_empty(&mut fs, &repository_path).unwrap();

    let mut it = repo.newest_items();
    assert!(it.next().is_none());
    assert_eq!(data_weight(&fs, &repository_path).unwrap(), 0);
}

#[test]
fn second_save_strictly_increases_document_version() {
    let mut fs = Fs::new();
    let repository_path = p("/repository");
    let mut index = bakare::index::Index::new();
    index.save(&mut fs, &repository_path).unwrap();
    let first = index.version();
    index.save(&mut fs, &repository_path).unwrap();
    let second = index.version();
    assert!(second > first);
}

#[test]
fn stored_id_is_the_content_fingerprint() {
    let mut fs = Fs::new();
    let repository_path = p("/repository");
    Repository::init(&mut fs, &repository_path).unwrap();
    let mut repo = Repository::open(&mut fs, &repository_path).unwrap();

    let contents = p("fingerprint me");
    fs.write(&p("/source/f"), contents.clone());
    repo.store(&mut fs, &p("/source/f")).unwrap();

    let item = repo.newest_item_by_source_path(&p("/source/f")).unwrap().unwrap();
    let direct = ItemId::of(&contents);
    assert!(item.id().same_as(&direct));
}

#[test]
fn fingerprint_of_empty_content_is_the_known_digest() {
    let id = ItemId::of(&Vec::new());
    let hex = id.to_hex();
    let expected = "cf83e1357eefb8bdf1542850d66d8007d620e4050b5715dc83f4a921d36ce9ce\
47d0d13c5d85f2b0ff8318d2877eec2f63b931bd47417a81a538327af927da3e";
    assert_eq!(hex, expected.as_bytes().to_vec());
}

#[test]
fn lockfile_name_carries_the_lock_id_text() {
    let mut fs = Fs::new();
    let directory = p("/repository");
    let mut prefix = directory.clone();
    prefix.push(b'/');
    let _lock = bakare::lock::Lock::lock(&mut fs, &directory).unwrap();
    let keys = fs.keys_with_prefix(&prefix);
    assert_eq!(keys.len(), 1);
    // directory, separator, 36 characters of hyphenated id, ".lock"
    assert_eq!(keys[0].len(), directory.len() + 1 + 36 + 5);
    assert!(keys[0].ends_with(b".lock"));
}

#[test]
fn refuse_to_store_relative_paths() {
    let mut fs = Fs::new();
    let repository_path = p("/repository");
    Repository::init(&mut fs, &repository_path).unwrap();
    let mut repo = Repository::open(&mut fs, &repository_path).unwrap();

    let result = repo.store(&mut fs, &p("relative/path"));
    assert_eq!(result, Err(BakareError::PathToStoreNotAbsolute));
}

#[test]
fn refuse_to_store_paths_inside_the_repository() {
    let mut fs = Fs::new();
    let repository_path = p("/repository");
    Repository::init(&mut fs, &repository_path).unwrap();
    let mut repo = Repository::open(&mut fs, &repository_path).unwrap();

    fs.write(&p("/repository/data/evil"), p("boom"));
    let result = repo.store(&mut fs, &p("/repository/data/evil"));
    assert_eq!(result, Err(BakareError::SourceSameAsRepository));
}

#[test]
fn report_timeout_when_foreign_lock_is_present() {
    let mut fs = Fs::new();
    let repository_path = p("/repository");
    Repository::init(&mut fs, &repository_path).unwrap();
    let mut repo = Repository::open(&mut fs, &repository_path).unwrap();

    fs.write(&p("/repository/someone-else.lock"), p("theirs"));
    let result = repo.save_index(&mut fs);
    assert_eq!(result, Err(BakareError::LockTimeout));
}

#[test]
fn refuse_corrupt_index_documents() {
    let mut fs = Fs::new();
    let repository_path = p("/repository");
    fs.write(&p("/repository/index"), p("not an index document"));
    let result = Repository::open(&mut fs, &repository_path);
    assert!(matches!(result, Err(BakareError::IndexLoadingError)));
}

#[test]
fn refuse_relative_repository_roots() {
    let mut fs = Fs::new();
    let result = Repository::open(&mut fs, &p("relative"));
    assert!(matches!(result, Err(BakareError::RepositoryPathNotAbsolute)));
}

#[test]
fn signal_corruption_when_an_object_is_missing() {
    let mut fs = Fs::new();
    let repository_path = p("/repository");
    Repository::init(&mut fs, &repository_path).unwrap();

    fs.write(&p("/source/f"), p("bytes"));
    backup_tree(&mut fs, "/source", "/repository");

    // Damage the repository: delete its only stored object.
    let mut data_prefix = repository_path.clone();
    data_prefix.extend_from_slice(b"/data/");
    let objects = fs.keys_with_prefix(&data_prefix);
    assert_eq!(objects.len(), 1);
    fs.remove_file(&objects[0]);

    let mut repo = Repository::open(&mut fs, &repository_path).unwrap();
    let item = repo.newest_item_by_source_path(&p("/source/f")).unwrap().unwrap();
    let engine = restore::Engine::new(&mut repo, &p("/target")).unwrap();
    let result = engine.restore(&mut fs, &item);
    assert_eq!(result, Err(BakareError::CorruptedRepoNoFile));
}

#[test]
fn construction_failure_leaves_repository_untouched() {
    let mut fs = Fs::new();
    let repository_path = p("/backups/repository");
    Repository::init(&mut fs, &repository_path).unwrap();
    let keys_before = fs.keys_with_prefix(&p("/")).len();

    let repo = Repository::open(&mut fs, &repository_path).unwrap();
    // A source root that is an ancestor of the repository is refused.
    assert!(backup::Engine::new(&p("/backups"), &repo).is_err());
    // So is the repository root itself.
    assert!(backup::Engine::new(&repository_path, &repo).is_err());
    // And a source inside the repository.
    assert!(backup::Engine::new(&p("/backups/repository/data"), &repo).is_err());

    let keys_after = fs.keys_with_prefix(&p("/")).len();
    assert_eq!(keys_before, keys_after);
}
