use vfs_tar::parser::{
    parse_decimal, parse_entry, parse_long_name, parse_octal, parse_pax, parse_pax_item,
    parse_sparses, parse_str, parse_tar, parse_type_flag, pax_get, ErrorKind, ExtraHeader,
    ParseError, Sparse, TypeFlag, UStarExtraHeader,
};

const EMPTY: &[u8] = b"";

#[test]
fn parse_octal_ok_test() {
    assert_eq!(parse_octal(b"756", 3), Ok((EMPTY, 494)));
    assert_eq!(parse_octal(b"756\0 234", 8), Ok((EMPTY, 494)));
    assert_eq!(parse_octal(b"756    \0", 8), Ok((EMPTY, 494)));
    assert_eq!(parse_octal(b"", 0), Ok((EMPTY, 0)));
}

#[test]
fn parse_octal_error_test() {
    let t1: &[u8] = b"1238";
    let _e: &[u8] = b"8";
    let t2: &[u8] = b"a";
    let t3: &[u8] = b"A";

    assert_eq!(
        parse_octal(t1, 4),
        Err(ParseError { input: _e, kind: ErrorKind::OctDigit })
    );
    assert_eq!(
        parse_octal(t2, 1),
        Err(ParseError { input: t2, kind: ErrorKind::OctDigit })
    );
    assert_eq!(
        parse_octal(t3, 1),
        Err(ParseError { input: t3, kind: ErrorKind::OctDigit })
    );
}

#[test]
fn parse_str_test() {
    let s: &[u8] = b"foobar\0\0\0\0baz";
    let baz: &[u8] = b"baz";
    assert_eq!(parse_str(s, 10), Ok((baz, "foobar")));
}

#[test]
fn parse_sparses_test() {
    let sparses = std::iter::repeat(0u8).take(12 * 2 * 4).collect::<Vec<_>>();
    assert_eq!(parse_sparses(&sparses, 4), Ok((EMPTY, vec![])));
}

#[test]
fn parse_pax_test() {
    let item: &[u8] = b"25 ctime=1084839148.1212\nfoo";
    let foo: &[u8] = b"foo";
    assert_eq!(
        parse_pax_item(item),
        Ok((foo, ("ctime", "1084839148.1212")))
    );
}

#[test]
fn parse_octal_more() {
    assert_eq!(parse_octal(b"0000644 ", 8), Ok((EMPTY, 420)));
    assert_eq!(parse_octal(b"17 \0rest", 4), Ok((&b"rest"[..], 15)));
    assert_eq!(parse_octal(b"  ", 2), Ok((EMPTY, 0)));
    assert_eq!(parse_octal(b"77777777777\0", 12), Ok((EMPTY, 8589934591)));
    assert_eq!(
        parse_octal(b"12", 3),
        Err(ParseError { input: b"12", kind: ErrorKind::Eof })
    );
    assert_eq!(
        parse_octal(b"1 2", 3),
        Err(ParseError { input: b"2", kind: ErrorKind::OctDigit })
    );
}

#[test]
fn parse_str_without_nul_and_bad_utf8() {
    assert_eq!(parse_str(b"abcdef", 3), Ok((&b"def"[..], "abc")));
    assert_eq!(parse_str(b"\0abc", 4), Ok((EMPTY, "")));
    assert_eq!(parse_str(b"h\xc3\xa9!", 4), Ok((EMPTY, "h\u{e9}!")));
    assert_eq!(
        parse_str(b"\xff\xfe", 2),
        Err(ParseError { input: b"\xff\xfe", kind: ErrorKind::Utf8 })
    );
    assert_eq!(parse_str(b"ab", 3).unwrap_err().kind, ErrorKind::Eof);
}

#[test]
fn parse_long_name_stops_at_nul() {
    assert_eq!(parse_long_name(b"long/name\0\0\0"), Ok((EMPTY, "long/name")));
}

#[test]
fn parse_type_flag_table() {
    let cases: [(u8, TypeFlag); 19] = [
        (b'0', TypeFlag::NormalFile),
        (0, TypeFlag::NormalFile),
        (b'1', TypeFlag::HardLink),
        (b'2', TypeFlag::SymbolicLink),
        (b'3', TypeFlag::CharacterSpecial),
        (b'4', TypeFlag::BlockSpecial),
        (b'5', TypeFlag::Directory),
        (b'6', TypeFlag::Fifo),
        (b'7', TypeFlag::ContiguousFile),
        (b'g', TypeFlag::PaxGlobal),
        (b'x', TypeFlag::Pax),
        (b'X', TypeFlag::Pax),
        (b'D', TypeFlag::GnuDirectory),
        (b'K', TypeFlag::GnuLongLink),
        (b'L', TypeFlag::GnuLongName),
        (b'S', TypeFlag::GnuSparse),
        (b'V', TypeFlag::GnuVolumeHeader),
        (b'Q', TypeFlag::VendorSpecific),
        (b'z', TypeFlag::VendorSpecific),
    ];
    for (c, flag) in cases {
        let input = [c, 9];
        assert_eq!(parse_type_flag(&input), Ok((&[9u8][..], flag)));
    }
    assert_eq!(parse_type_flag(b"").unwrap_err().kind, ErrorKind::Eof);
}

#[test]
fn parse_sparses_keeps_used_slots() {
    let mut input = Vec::new();
    input.extend_from_slice(b"00000000000\0");
    input.extend_from_slice(b"00000000000\0");
    input.extend_from_slice(b"00000001000\0");
    input.extend_from_slice(b"00000000010\0");
    input.extend_from_slice(b"tail");
    assert_eq!(
        parse_sparses(&input, 2),
        Ok((&b"tail"[..], vec![Sparse { offset: 512, numbytes: 8 }]))
    );
    assert_eq!(parse_sparses(&input[..30], 2).unwrap_err().kind, ErrorKind::Eof);
}

#[test]
fn parse_pax_records_and_lookup() {
    let block: &[u8] = b"15 path=a/b/c\n11 size=17\n12 path=x/y\nbroken";
    let (rest, items) = parse_pax(block).unwrap();
    assert_eq!(rest, b"broken");
    assert_eq!(items, vec![("path", "a/b/c"), ("size", "17"), ("path", "x/y")]);
    assert_eq!(pax_get(&items, b"path"), Some("x/y"));
    assert_eq!(pax_get(&items, b"size"), Some("17"));
    assert_eq!(pax_get(&items, b"linkpath"), None);
    assert_eq!(parse_pax_item(b"x path=a\n").unwrap_err().kind, ErrorKind::Tag);
    assert_eq!(parse_pax_item(b"12 path\n").unwrap_err().kind, ErrorKind::Tag);
}

#[test]
fn parse_decimal_cases() {
    assert_eq!(parse_decimal(b"17000"), Some(17000));
    assert_eq!(parse_decimal(b"+17"), Some(17));
    assert_eq!(parse_decimal(b"18446744073709551615"), Some(u64::MAX));
    assert_eq!(parse_decimal(b"18446744073709551616"), None);
    assert_eq!(parse_decimal(b""), None);
    assert_eq!(parse_decimal(b"+"), None);
    assert_eq!(parse_decimal(b"-1"), None);
    assert_eq!(parse_decimal(b"12a"), None);
}

#[test]
fn parse_gnu_and_posix_headers() {
    let mut gnu = tar::Header::new_gnu();
    gnu.set_path("dir/file.txt").unwrap();
    gnu.set_size(5);
    gnu.set_mode(0o644);
    gnu.set_cksum();
    let mut bytes = gnu.as_bytes().to_vec();
    bytes.extend_from_slice(b"hello");
    bytes.extend_from_slice(&[0u8; 507]);
    let (rest, entry) = parse_entry(&bytes).unwrap();
    assert!(rest.is_empty());
    assert_eq!(entry.header.name, "dir/file.txt");
    assert_eq!(entry.header.size, 5);
    assert_eq!(entry.header.mode, 0o644);
    assert_eq!(entry.header.typeflag, TypeFlag::NormalFile);
    assert_eq!(entry.contents, b"hello");
    match &entry.header.ustar {
        ExtraHeader::UStar(u) => assert!(matches!(u.extra, UStarExtraHeader::Gnu(_))),
        ExtraHeader::Padding => panic!("expected a GNU header"),
    }

    let mut posix = tar::Header::new_ustar();
    posix.set_path("p/q").unwrap();
    posix.set_size(0);
    posix.set_cksum();
    let (_, entries) = parse_tar(posix.as_bytes()).unwrap();
    assert_eq!(entries.len(), 1);
    match &entries[0].header.ustar {
        ExtraHeader::UStar(u) => match &u.extra {
            UStarExtraHeader::Posix(p) => assert_eq!(p.prefix, ""),
            UStarExtraHeader::Gnu(_) => panic!("expected a POSIX header"),
        },
        ExtraHeader::Padding => panic!("expected a POSIX header"),
    }

    let mut old = tar::Header::new_old();
    old.set_path("old").unwrap();
    old.set_size(0);
    old.set_cksum();
    let (_, entries) = parse_tar(old.as_bytes()).unwrap();
    assert_eq!(entries[0].header.ustar, ExtraHeader::Padding);
}

#[test]
fn parse_tar_of_zero_blocks() {
    let zeros = vec![0u8; 1024];
    let (rest, entries) = parse_tar(&zeros).unwrap();
    assert!(rest.is_empty());
    assert_eq!(entries.len(), 2);
    assert_eq!(entries[0].header.name, "");
}
