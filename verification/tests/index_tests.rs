use bakare::fs::Fs;
use bakare::index::Index;
use bakare::item_id::ItemId;
use bakare::lock::Lock;
use bakare::repository::Repository;

fn p(s: &str) -> Vec<u8> {
    s.as_bytes().to_vec()
}

#[test]
fn have_version_increased_when_saved() {
    let mut fs = Fs::new();
    let mut index = Index::new();
    let old_version = index.version();

    index.save(&mut fs, &p("/repository")).unwrap();

    let new_version = index.version();
    assert!(new_version > old_version);
}

#[test]
fn be_same_when_loaded_from_disk() {
    let mut fs = Fs::new();
    let repository_path = p("/repository");
    let mut original = Index::new();

    original.save(&mut fs, &repository_path).unwrap();
    let loaded = Index::load(&mut fs, &repository_path).unwrap();

    assert_eq!(original, loaded);
}

#[test]
fn be_same_when_loaded_from_disk_with_items() {
    let mut fs = Fs::new();
    let repository_path = p("/repository");
    let mut original = Index::new();
    original.remember(&p("/some/path"), &p("data/aa"), ItemId::from_bytes(vec![0xaau8]));
    original.remember(&p("/some/other"), &p("data/bb"), ItemId::from_bytes(vec![0xbbu8]));

    original.save(&mut fs, &repository_path).unwrap();
    let loaded = Index::load(&mut fs, &repository_path).unwrap();

    assert_eq!(original, loaded);
}

#[test]
fn support_file_versions() {
    let mut index = Index::new();
    index.remember(&p("/some/path"), &p("data/01"), ItemId::from_bytes(vec![1u8; 32]));
    let v1 = index.newest_item_by_source_path(&p("/some/path")).unwrap().unwrap().version();
    index.remember(&p("/some/path"), &p("data/02"), ItemId::from_bytes(vec![2u8; 32]));
    let v2 = index.newest_item_by_source_path(&p("/some/path")).unwrap().unwrap().version();

    assert!(v2 > v1);
}

#[test]
fn support_deduplication() {
    let mut fs = Fs::new();
    let repository_path = p("/repository");
    Repository::init(&mut fs, &repository_path).unwrap();
    let mut repo = Repository::open(&mut fs, &repository_path).unwrap();

    fs.write(&p("/some/path"), p("shared bytes"));
    fs.write(&p("/some/other/path"), p("shared bytes"));

    repo.store(&mut fs, &p("/some/path")).unwrap();
    let storage_path1 = repo
        .newest_item_by_source_path(&p("/some/path"))
        .unwrap()
        .unwrap()
        .relative_path()
        .clone();
    repo.store(&mut fs, &p("/some/path")).unwrap();
    let storage_path2 = repo
        .newest_item_by_source_path(&p("/some/path"))
        .unwrap()
        .unwrap()
        .relative_path()
        .clone();
    repo.store(&mut fs, &p("/some/other/path")).unwrap();
    let storage_path3 = repo
        .newest_item_by_source_path(&p("/some/other/path"))
        .unwrap()
        .unwrap()
        .relative_path()
        .clone();

    assert_eq!(storage_path1, storage_path2);
    assert_eq!(storage_path1, storage_path3);
}

#[test]
fn have_size_equal_to_sum_of_sizes_of_backed_up_files() {
    let file_size1: usize = 13;
    let file_size2: usize = 27;
    let mut fs = Fs::new();
    let repository_path = p("/repository");
    Repository::init(&mut fs, &repository_path).unwrap();
    let mut backup_repository = Repository::open(&mut fs, &repository_path).unwrap();

    fs.write(&p("/source/file1"), vec![1u8; file_size1]);
    backup_repository.store(&mut fs, &p("/source/file1")).unwrap();

    fs.write(&p("/source/file2"), vec![2u8; file_size2]);
    backup_repository.store(&mut fs, &p("/source/file2")).unwrap();

    let weight = backup_repository.data_weight(&fs).unwrap();
    assert_eq!((file_size1 + file_size2) as u64, weight);
}

#[test]
fn be_released_when_dropped() {
    let mut fs = Fs::new();
    let directory = p("/repository");
    let mut prefix = directory.clone();
    prefix.push(b'/');
    let initial_number_of_entries = fs.keys_with_prefix(&prefix).len();

    let lock = Lock::lock(&mut fs, &directory).unwrap();
    lock.release(&mut fs);

    let entries = fs.keys_with_prefix(&prefix).len();
    assert_eq!(entries, initial_number_of_entries);
}

#[test]
fn refuse_second_lock_while_held() {
    let mut fs = Fs::new();
    let directory = p("/repository");
    let _held = Lock::lock(&mut fs, &directory).unwrap();

    let second = Lock::lock(&mut fs, &directory);
    assert!(second.is_err());
}
