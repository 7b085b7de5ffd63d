use vfs_tar::TarFS;

const CONTENT: &[u8] = b"pub fn answer() -> u32 {\n    42\n}\n";

fn source_archive() -> Vec<u8> {
    let mut archive = tar::Builder::new(Vec::new());
    let mut dir = tar::Header::new_gnu();
    dir.set_entry_type(tar::EntryType::Directory);
    dir.set_size(0);
    archive.append_data(&mut dir, "src", std::io::empty()).unwrap();
    let mut file = tar::Header::new_gnu();
    file.set_size(CONTENT.len() as u64);
    archive.append_data(&mut file, "src/lib.rs", CONTENT).unwrap();
    archive.into_inner().unwrap()
}

#[test]
fn basic_basic() {
    let bytes = source_archive();
    let fs = TarFS::new(&bytes).unwrap();
    let files = fs.read_dir("src").unwrap();
    assert_eq!(files, vec!["lib.rs".to_string()]);

    let buffer = fs.open_file("src/lib.rs").unwrap();
    assert_eq!(buffer, CONTENT);
}
