use bakare::backup;
use bakare::fs::Fs;
use bakare::repository::Repository;
use bakare::restore;

fn p(s: &str) -> Vec<u8> {
    s.as_bytes().to_vec()
}

fn file_id(i: usize, j: usize) -> String {
    format!("{}-{}", i, j)
}

#[test]
fn handle_concurrent_backups() {
    let mut fs = Fs::new();
    let repository_path = p("/repository");
    Repository::init(&mut fs, &repository_path).unwrap();

    let parallel_backups_number: usize = 16;
    let files_per_backup_number: usize = 16;
    let total_number_of_files = parallel_backups_number * files_per_backup_number;

    // Each writer works from its own source tree with its own repository
    // instance; every save merges into the shared on-disk index, as the
    // interleaved runs of independent processes do.
    for task_number in 0..parallel_backups_number {
        let source = format!("/source-{}", task_number);
        let mut repo = Repository::open(&mut fs, &repository_path).unwrap();
        for i in 0..files_per_backup_number {
            let id = file_id(task_number, i);
            fs.write(&p(&format!("{}/{}", source, id)), p(&id));
        }
        let engine = backup::Engine::new(&p(&source), &repo).unwrap();
        engine.backup(&mut fs, &mut repo).unwrap();
    }

    let weight = bakare::assertions::data_weight(&fs, &repository_path).unwrap();
    assert!(weight > 0);

    let target_path = p("/target");
    let mut restore_repo = Repository::open(&mut fs, &repository_path).unwrap();
    let restore_engine = restore::Engine::new(&mut restore_repo, &target_path).unwrap();
    restore_engine.restore_all(&mut fs, &mut restore_repo).unwrap();

    let mut restored: usize = 0;
    for task_number in 0..parallel_backups_number {
        for i in 0..files_per_backup_number {
            let id = file_id(task_number, i);
            let path = p(&format!("/target/source-{}/{}", task_number, id));
            let contents = fs.read(&path).unwrap();
            assert_eq!(contents, &p(&id));
            restored += 1;
        }
    }
    assert_eq!(restored, total_number_of_files);
}
