use vfs_tar::{FileType, FsError, Metadata, TarFS};

const CONTENT: &[u8] = b"//! A small library.\npub fn answer() -> u32 {\n    42\n}\n";

fn file_header(len: usize) -> tar::Header {
    let mut header = tar::Header::new_gnu();
    header.set_size(len as u64);
    header
}

fn add_file(archive: &mut tar::Builder<Vec<u8>>, name: &str, data: &[u8]) {
    let mut header = file_header(data.len());
    archive.append_data(&mut header, name, data).unwrap();
}

fn add_dir(archive: &mut tar::Builder<Vec<u8>>, name: &str) {
    let mut header = tar::Header::new_gnu();
    header.set_entry_type(tar::EntryType::Directory);
    header.set_size(0);
    archive.append_data(&mut header, name, std::io::empty()).unwrap();
}

fn add_symlink(archive: &mut tar::Builder<Vec<u8>>, name: &str, target: &str) {
    let mut header = tar::Header::new_gnu();
    header.set_entry_type(tar::EntryType::Symlink);
    archive.append_link(&mut header, name, target).unwrap();
}

fn add_pax(archive: &mut tar::Builder<Vec<u8>>, records: &[u8]) {
    let mut header = tar::Header::new_ustar();
    header.set_path("PaxHeaders/x").unwrap();
    header.set_entry_type(tar::EntryType::XHeader);
    header.set_size(records.len() as u64);
    header.set_cksum();
    archive.append(&header, records).unwrap();
}

#[test]
fn lib_basic() {
    let mut archive = tar::Builder::new(Vec::new());
    add_dir(&mut archive, "src");
    add_file(&mut archive, "src/lib.rs", CONTENT);
    let bytes = archive.into_inner().unwrap();

    let fs = TarFS::new(&bytes).unwrap();
    let mut files = fs.read_dir("src").unwrap();
    files.sort();
    assert_eq!(files, vec!["lib.rs".to_string()]);
    assert_eq!(fs.open_file("src/lib.rs").unwrap(), CONTENT);
}

#[test]
fn lib_long() {
    let name = "a".repeat(1024);
    let mut archive = tar::Builder::new(Vec::new());
    add_file(&mut archive, &name, CONTENT);
    let bytes = archive.into_inner().unwrap();

    let fs = TarFS::new(&bytes).unwrap();
    assert_eq!(fs.open_file(&name).unwrap(), CONTENT);
}

#[test]
fn link() {
    let name = "a".repeat(1024);
    let link_name = "b".repeat(1024);
    let mut archive = tar::Builder::new(Vec::new());
    add_file(&mut archive, &name, CONTENT);
    add_symlink(&mut archive, &link_name, &name);
    let bytes = archive.into_inner().unwrap();

    let fs = TarFS::new(&bytes).unwrap();
    assert_eq!(fs.open_file(&link_name).unwrap(), CONTENT);
}

#[test]
fn ustar() {
    let name = format!("{}/{}", "a".repeat(80), "b".repeat(80));
    let link_name = format!("{}/{}", "c".repeat(80), "d".repeat(80));
    let mut archive = tar::Builder::new(Vec::new());
    {
        let mut header = tar::Header::new_ustar();
        header.set_size(CONTENT.len() as u64);
        archive.append_data(&mut header, &name, CONTENT).unwrap();
    }
    {
        let mut header = tar::Header::new_ustar();
        header.set_entry_type(tar::EntryType::Symlink);
        archive
            .append_link(&mut header, &link_name, format!("../{name}"))
            .unwrap();
    }
    let bytes = archive.into_inner().unwrap();

    let fs = TarFS::new(&bytes).unwrap();
    assert_eq!(fs.open_file(&link_name).unwrap(), CONTENT);
}

#[test]
fn ustar_prefix_path() {
    let name = format!("{}/{}", "a".repeat(80), "b".repeat(80));
    let mut archive = tar::Builder::new(Vec::new());
    let mut header = tar::Header::new_ustar();
    header.set_size(CONTENT.len() as u64);
    archive.append_data(&mut header, &name, CONTENT).unwrap();
    let bytes = archive.into_inner().unwrap();
    // the header keeps the name in two fields: prefix and name
    assert_eq!(&bytes[0..80], "b".repeat(80).as_bytes());
    assert_eq!(&bytes[345..425], "a".repeat(80).as_bytes());

    let fs = TarFS::new(&bytes).unwrap();
    assert_eq!(fs.open_file(&name).unwrap(), CONTENT);
    assert_eq!(fs.read_dir(&"a".repeat(80)).unwrap(), vec!["b".repeat(80)]);
}

#[test]
fn relative_symlink() {
    let mut archive = tar::Builder::new(Vec::new());
    add_file(&mut archive, "a/b", CONTENT);
    add_symlink(&mut archive, "c/d", "../a/b");
    let bytes = archive.into_inner().unwrap();

    let fs = TarFS::new(&bytes).unwrap();
    assert_eq!(fs.open_file("c/d").unwrap(), CONTENT);
    assert_eq!(
        fs.metadata("c/d").unwrap(),
        Metadata { file_type: FileType::File, len: CONTENT.len() as u64 }
    );
}

#[test]
fn absolute_symlink_and_dots() {
    let mut archive = tar::Builder::new(Vec::new());
    add_file(&mut archive, "x/y/z", CONTENT);
    add_symlink(&mut archive, "abs", "/x/y/z");
    add_symlink(&mut archive, "x/dots", "./y/../y/z");
    add_symlink(&mut archive, "dirlink", "x/y");
    let bytes = archive.into_inner().unwrap();

    let fs = TarFS::new(&bytes).unwrap();
    assert_eq!(fs.open_file("abs").unwrap(), CONTENT);
    assert_eq!(fs.open_file("x/dots").unwrap(), CONTENT);
    // components after a link are looked up below its target
    assert_eq!(fs.open_file("dirlink/z").unwrap(), CONTENT);
    assert_eq!(fs.read_dir("dirlink").unwrap(), vec!["z".to_string()]);
}

#[test]
fn symlink_loop_is_not_found() {
    let mut archive = tar::Builder::new(Vec::new());
    add_symlink(&mut archive, "loop", "loop");
    add_symlink(&mut archive, "p", "q");
    add_symlink(&mut archive, "q", "p");
    let bytes = archive.into_inner().unwrap();

    let fs = TarFS::new(&bytes).unwrap();
    assert_eq!(fs.open_file("loop"), Err(FsError::NotFound));
    assert_eq!(fs.metadata("p"), Err(FsError::NotFound));
    assert!(!fs.path_exists("q"));
}

#[test]
fn link_chain_of_forty_resolves() {
    let mut archive = tar::Builder::new(Vec::new());
    add_file(&mut archive, "target", CONTENT);
    add_symlink(&mut archive, "l0", "target");
    for k in 1..41 {
        add_symlink(&mut archive, &format!("l{}", k), &format!("l{}", k - 1));
    }
    let bytes = archive.into_inner().unwrap();

    let fs = TarFS::new(&bytes).unwrap();
    assert_eq!(fs.open_file("l39").unwrap(), CONTENT);
    assert_eq!(fs.open_file("l40"), Err(FsError::NotFound));
}

#[test]
fn pax_size_override() {
    let body = vec![b'x'; 512];
    let mut archive = tar::Builder::new(Vec::new());
    add_pax(&mut archive, b"11 size=17\n");
    add_file(&mut archive, "sized", &body);
    add_file(&mut archive, "plain", &body);
    let bytes = archive.into_inner().unwrap();

    let fs = TarFS::new(&bytes).unwrap();
    assert_eq!(fs.metadata("sized").unwrap().len, 17);
    assert_eq!(fs.open_file("sized").unwrap(), &body[..17]);
    // the override is used by one record only
    assert_eq!(fs.metadata("plain").unwrap().len, 512);
}

#[test]
fn pax_size_beyond_contents_keeps_the_contents() {
    let body = vec![b'y'; 512];
    let mut archive = tar::Builder::new(Vec::new());
    add_pax(&mut archive, b"14 size=17000\n");
    add_file(&mut archive, "big", &body);
    let bytes = archive.into_inner().unwrap();

    let fs = TarFS::new(&bytes).unwrap();
    assert_eq!(fs.metadata("big").unwrap().len, 512);
}

#[test]
fn pax_path_and_linkpath() {
    let mut archive = tar::Builder::new(Vec::new());
    add_file(&mut archive, "real/file", CONTENT);
    add_pax(&mut archive, b"22 path=renamed/entry\n");
    add_file(&mut archive, "short", CONTENT);
    add_pax(&mut archive, b"28 linkpath=/real/file\n17 path=alias\n");
    add_symlink(&mut archive, "ignored", "nowhere");
    let bytes = archive.into_inner().unwrap();

    let fs = TarFS::new(&bytes).unwrap();
    assert_eq!(fs.open_file("renamed/entry").unwrap(), CONTENT);
    assert_eq!(fs.open_file("short"), Err(FsError::NotFound));
    assert_eq!(fs.open_file("alias").unwrap(), CONTENT);
    assert!(!fs.path_exists("ignored"));
}

#[test]
fn pax_unparsable_size_is_ignored() {
    let mut archive = tar::Builder::new(Vec::new());
    add_pax(&mut archive, b"13 size=12ab\n");
    add_file(&mut archive, "f", CONTENT);
    let bytes = archive.into_inner().unwrap();

    let fs = TarFS::new(&bytes).unwrap();
    assert_eq!(fs.metadata("f").unwrap().len, CONTENT.len() as u64);
}

#[test]
fn directories_and_metadata() {
    let mut archive = tar::Builder::new(Vec::new());
    add_file(&mut archive, "d/one", b"1");
    add_file(&mut archive, "d/two", b"22");
    add_dir(&mut archive, "d");
    add_dir(&mut archive, "e/f/");
    let bytes = archive.into_inner().unwrap();

    let fs = TarFS::new(&bytes).unwrap();
    let mut names = fs.read_dir("d").unwrap();
    names.sort();
    // an explicit directory record keeps the children already there
    assert_eq!(names, vec!["one".to_string(), "two".to_string()]);
    let mut root = fs.read_dir("").unwrap();
    root.sort();
    assert_eq!(root, vec!["d".to_string(), "e".to_string()]);
    assert_eq!(fs.read_dir("/e").unwrap(), vec!["f".to_string()]);
    assert_eq!(fs.read_dir("e/f").unwrap(), Vec::<String>::new());
    assert_eq!(
        fs.metadata("d").unwrap(),
        Metadata { file_type: FileType::Directory, len: 0 }
    );
    assert_eq!(fs.metadata("/d/two").unwrap().len, 2);
    assert!(fs.path_exists("d"));
    assert!(fs.path_exists("d/one"));
    assert!(!fs.path_exists("d/three"));
    assert_eq!(fs.read_dir("d/one"), Err(FsError::NotFound));
    assert_eq!(fs.open_file("d"), Err(FsError::NotFound));
}

#[test]
fn components_after_a_file_are_not_found() {
    let mut archive = tar::Builder::new(Vec::new());
    add_file(&mut archive, "a", CONTENT);
    let bytes = archive.into_inner().unwrap();

    let fs = TarFS::new(&bytes).unwrap();
    assert_eq!(fs.open_file("a/b"), Err(FsError::NotFound));
    assert!(!fs.path_exists("a/b"));
}

#[test]
fn file_under_a_file_is_skipped() {
    let mut archive = tar::Builder::new(Vec::new());
    add_file(&mut archive, "a", CONTENT);
    add_file(&mut archive, "a/b", b"other");
    add_dir(&mut archive, "a");
    let bytes = archive.into_inner().unwrap();

    let fs = TarFS::new(&bytes).unwrap();
    assert_eq!(fs.open_file("a").unwrap(), CONTENT);
    assert_eq!(fs.read_dir(""), Ok(vec!["a".to_string()]));
}

#[test]
fn later_record_replaces_earlier() {
    let mut archive = tar::Builder::new(Vec::new());
    add_file(&mut archive, "f", b"first");
    add_file(&mut archive, "f", b"second");
    let bytes = archive.into_inner().unwrap();

    let fs = TarFS::new(&bytes).unwrap();
    assert_eq!(fs.open_file("f").unwrap(), b"second");
    assert_eq!(fs.read_dir("").unwrap().len(), 1);
}

#[test]
fn hard_link_resolves_like_symlink() {
    let mut archive = tar::Builder::new(Vec::new());
    add_file(&mut archive, "orig", CONTENT);
    let mut header = tar::Header::new_gnu();
    header.set_entry_type(tar::EntryType::Link);
    archive.append_link(&mut header, "hard", "orig").unwrap();
    let bytes = archive.into_inner().unwrap();

    let fs = TarFS::new(&bytes).unwrap();
    assert_eq!(fs.open_file("hard").unwrap(), CONTENT);
}

#[test]
fn read_only_operations_fail() {
    let bytes = tar::Builder::new(Vec::new()).into_inner().unwrap();
    let fs = TarFS::new(&bytes).unwrap();
    assert_eq!(fs.create_dir("x"), Err(FsError::NotSupported));
    assert_eq!(fs.create_file("x"), Err(FsError::NotSupported));
    assert_eq!(fs.append_file("x"), Err(FsError::NotSupported));
    assert_eq!(fs.remove_file("x"), Err(FsError::NotSupported));
    assert_eq!(fs.remove_dir("x"), Err(FsError::NotSupported));
    assert_eq!(fs.read_dir("").unwrap(), Vec::<String>::new());
}

#[test]
fn empty_input_is_an_empty_tree() {
    let fs = TarFS::new(&[]).unwrap();
    assert!(fs.path_exists(""));
    assert!(!fs.path_exists("a"));
}

#[test]
fn malformed_archives_are_rejected() {
    let mut archive = tar::Builder::new(Vec::new());
    add_file(&mut archive, "f", CONTENT);
    let mut bytes = archive.into_inner().unwrap();
    bytes.extend_from_slice(&[1u8; 100]);
    assert!(matches!(TarFS::new(&bytes), Err(FsError::Malformed(_))));

    let mut bad = vec![0u8; 1024];
    bad[100..108].copy_from_slice(b"0000009\0");
    assert!(matches!(TarFS::new(&bad), Err(FsError::Malformed(_))));

    let truncated = vec![0u8; 300];
    assert!(matches!(TarFS::new(&truncated), Err(FsError::Malformed(_))));
}

#[test]
fn building_twice_gives_the_same_answers() {
    let mut archive = tar::Builder::new(Vec::new());
    add_file(&mut archive, "a/b", CONTENT);
    add_symlink(&mut archive, "c", "a/b");
    let bytes = archive.into_inner().unwrap();

    let first = TarFS::new(&bytes).unwrap();
    let first_answer = (first.read_dir("a"), first.open_file("c"), first.metadata("a/b"));
    drop(first);
    let second = TarFS::new(&bytes).unwrap();
    assert_eq!(first_answer.0, second.read_dir("a"));
    assert_eq!(first_answer.1, second.open_file("c"));
    assert_eq!(first_answer.2, second.metadata("a/b"));
}

#[test]
fn non_ascii_names() {
    let mut archive = tar::Builder::new(Vec::new());
    add_file(&mut archive, "r\u{e9}pertoire/\u{65e5}\u{672c}.txt", CONTENT);
    let bytes = archive.into_inner().unwrap();

    let fs = TarFS::new(&bytes).unwrap();
    assert_eq!(fs.read_dir("").unwrap(), vec!["r\u{e9}pertoire".to_string()]);
    assert_eq!(
        fs.read_dir("r\u{e9}pertoire").unwrap(),
        vec!["\u{65e5}\u{672c}.txt".to_string()]
    );
    assert_eq!(fs.open_file("/r\u{e9}pertoire/\u{65e5}\u{672c}.txt").unwrap(), CONTENT);
}
