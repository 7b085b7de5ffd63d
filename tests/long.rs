use vfs_tar::TarFS;

const CONTENT: &[u8] = b"pub fn answer() -> u32 {\n    42\n}\n";

#[test]
fn long_long() {
    let name = "a".repeat(1024);

    let mut archive = tar::Builder::new(Vec::new());
    let mut header = tar::Header::new_gnu();
    header.set_size(CONTENT.len() as u64);
    archive.append_data(&mut header, &name, CONTENT).unwrap();
    let bytes = archive.into_inner().unwrap();

    let fs = TarFS::new(&bytes).unwrap();
    let buffer = fs.open_file(&name).unwrap();
    assert_eq!(buffer, CONTENT);
}
