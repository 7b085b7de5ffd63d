//! Zero-copy decoding of tar records.
use vstd::prelude::*;
use vstd::utf8::valid_utf8;
use vstd::string::StringSliceAdditionalSpecFns;

verus! {

/// What went wrong at the position a [`ParseError`] points to.
#[derive(Clone, Copy, Debug, PartialEq, Eq, Structural)]
pub enum ErrorKind {
    /// The input ended before the field did.
    Eof,
    /// A numeric field holds a byte that is not an octal digit.
    OctDigit,
    /// A text field is not valid UTF-8.
    Utf8,
    /// An expected marker is missing.
    Tag,
    /// Input is left after the last record.
    Trailing,
}

/// A decoding failure: the input that could not be decoded, and why.
#[derive(Clone, Copy, Debug, PartialEq, Eq)]
pub struct ParseError<'a> {
    pub input: &'a [u8],
    pub kind: ErrorKind,
}

pub open spec fn is_octal_digit(b: u8) -> bool {
    48 <= b && b <= 55
}

/// First index at or after `k` whose byte is not an octal digit.
pub open spec fn octal_end(s: Seq<u8>, k: nat) -> nat
    decreases s.len() - k,
{
    if k < s.len() && is_octal_digit(s[k as int]) {
        octal_end(s, k + 1)
    } else {
        k
    }
}

/// First index at or after `k` whose byte is not a space.
pub open spec fn space_end(s: Seq<u8>, k: nat) -> nat
    decreases s.len() - k,
{
    if k < s.len() && s[k as int] == 32 {
        space_end(s, k + 1)
    } else {
        k
    }
}

/// First index at or after `k` that holds the byte `c`, or the length.
pub open spec fn find_byte(s: Seq<u8>, k: nat, c: u8) -> nat
    decreases s.len() - k,
{
    if k < s.len() && s[k as int] != c {
        find_byte(s, k + 1, c)
    } else {
        k
    }
}

/// The number written by a run of octal digits.
pub open spec fn octal_value(s: Seq<u8>) -> nat
    decreases s.len(),
{
    if s.len() == 0 {
        0
    } else {
        octal_value(s.drop_last()) * 8 + (s.last() - 48) as nat
    }
}

/// An octal field: digits, then spaces, then the end of the field or a NUL.
pub open spec fn octal_ok(f: Seq<u8>) -> bool {
    let p = space_end(f, octal_end(f, 0));
    p == f.len() || f[p as int] == 0
}

/// The value of an octal field; a field without digits reads as zero.
pub open spec fn octal_of(f: Seq<u8>) -> nat {
    octal_value(f.subrange(0, octal_end(f, 0) as int))
}

/// The text of a fixed-width string field: everything before the first NUL.
pub open spec fn field_str(f: Seq<u8>) -> Seq<u8> {
    f.subrange(0, find_byte(f, 0, 0) as int)
}

/// A fixed-width string field whose text is valid UTF-8.
pub open spec fn str_ok(f: Seq<u8>) -> bool {
    valid_utf8(field_str(f))
}

pub open spec fn pow8(n: nat) -> nat
    decreases n,
{
    if n == 0 {
        1
    } else {
        8 * pow8((n - 1) as nat)
    }
}

proof fn lemma_pow8_mono(a: nat, b: nat)
    requires
        a <= b,
    ensures
        pow8(a) <= pow8(b),
    decreases b,
{
    if a < b {
        lemma_pow8_mono(a, (b - 1) as nat);
    }
}

pub proof fn lemma_octal_value_bound(s: Seq<u8>)
    requires
        forall|j: int| 0 <= j < s.len() ==> is_octal_digit(#[trigger] s[j]),
    ensures
        octal_value(s) < pow8(s.len()),
    decreases s.len(),
{
    if s.len() > 0 {
        lemma_octal_value_bound(s.drop_last());
        let v = octal_value(s.drop_last());
        let p = pow8((s.len() - 1) as nat);
        assert(v * 8 + 7 < 8 * p) by (nonlinear_arith)
            requires
                v < p,
        ;
    }
}

/// Relies on std::str::from_utf8: it accepts exactly the valid UTF-8 byte
/// strings and then views the same bytes as text.
#[verifier::external_body]
pub(crate) fn utf8<'a>(b: &'a [u8]) -> (r: Option<&'a str>)
    ensures
        r is Some <==> valid_utf8(b@),
        r is Some ==> r->Some_0.spec_bytes() == b@,
{
    std::str::from_utf8(b).ok()
}

/// Reads one byte as a flag: set when it is not zero.
pub fn parse_bool<'a>(i: &'a [u8]) -> (r: Result<(&'a [u8], bool), ParseError<'a>>)
    ensures
        i@.len() == 0 ==> r == Err::<(&'a [u8], bool), ParseError<'a>>(
            ParseError { input: i, kind: ErrorKind::Eof },
        ),
        i@.len() > 0 ==> r is Ok && r->Ok_0.0@ == i@.drop_first() && r->Ok_0.1 == (i@[0] != 0),
{
    if i.len() == 0 {
        return Err(ParseError { input: i, kind: ErrorKind::Eof });
    }
    let rest = &i[1..i.len()];
    assert(rest@ =~= i@.drop_first());
    Ok((rest, i[0] != 0))
}

/// Reads a string field of `size` bytes; the text ends at the first NUL.
pub fn parse_str<'a>(i: &'a [u8], size: usize) -> (r: Result<(&'a [u8], &'a str), ParseError<'a>>)
    ensures
        i@.len() < size ==> r is Err && r->Err_0.kind == ErrorKind::Eof,
        i@.len() >= size ==> (r is Ok <==> str_ok(i@.subrange(0, size as int))),
        i@.len() >= size && !str_ok(i@.subrange(0, size as int)) ==> r is Err
            && r->Err_0.kind == ErrorKind::Utf8,
        r is Ok ==> r->Ok_0.0@ == i@.subrange(size as int, i@.len() as int)
            && r->Ok_0.1.spec_bytes() == field_str(i@.subrange(0, size as int)),
{
    if i.len() < size {
        return Err(ParseError { input: i, kind: ErrorKind::Eof });
    }
    let field = &i[0..size];
    let mut k: usize = 0;
    while k < size && field[k] != 0
        invariant
            size <= i@.len(),
            field@ == i@.subrange(0, size as int),
            k <= size,
            find_byte(field@, k as nat, 0) == find_byte(field@, 0, 0),
        decreases size - k,
    {
        k = k + 1;
    }
    let text = &field[0..k];
    match utf8(text) {
        Some(s) => Ok((&i[size..i.len()], s)),
        None => Err(ParseError { input: field, kind: ErrorKind::Utf8 }),
    }
}

/// Reads an octal number field of `n` bytes.
pub fn parse_octal<'a>(i: &'a [u8], n: usize) -> (r: Result<(&'a [u8], u64), ParseError<'a>>)
    requires
        n <= 21,
    ensures
        i@.len() < n ==> r is Err && r->Err_0.kind == ErrorKind::Eof,
        i@.len() >= n ==> (r is Ok <==> octal_ok(i@.subrange(0, n as int))),
        i@.len() >= n && !octal_ok(i@.subrange(0, n as int)) ==> r is Err
            && r->Err_0.kind == ErrorKind::OctDigit
            && r->Err_0.input@ == i@.subrange(
                space_end(i@.subrange(0, n as int), octal_end(i@.subrange(0, n as int), 0)) as int,
                n as int,
            ),
        r is Ok ==> r->Ok_0.0@ == i@.subrange(n as int, i@.len() as int)
            && r->Ok_0.1 == octal_of(i@.subrange(0, n as int)),
{
    if i.len() < n {
        return Err(ParseError { input: i, kind: ErrorKind::Eof });
    }
    let field = &i[0..n];
    let ghost f = field@;
    let mut k: usize = 0;
    let mut acc: u64 = 0;
    while k < n && 48 <= field[k] && field[k] <= 55
        invariant
            f == field@,
            n <= i@.len(),
            f == i@.subrange(0, n as int),
            n <= 21,
            k <= n,
            octal_end(f, k as nat) == octal_end(f, 0),
            forall|j: int| 0 <= j < k ==> is_octal_digit(#[trigger] f[j]),
            acc == octal_value(f.subrange(0, k as int)),
        decreases n - k,
    {
        proof {
            lemma_octal_value_bound(f.subrange(0, k as int));
            lemma_pow8_mono(k as nat, 20);
            reveal_with_fuel(pow8, 21);
            assert(f.subrange(0, k + 1).drop_last() =~= f.subrange(0, k as int));
        }
        acc = acc * 8 + (field[k] - 48) as u64;
        k = k + 1;
    }
    assert(f.subrange(0, k as int) =~= f.subrange(0, octal_end(f, 0) as int));
    let mut p: usize = k;
    while p < n && field[p] == 32
        invariant
            f == field@,
            f.len() == n,
            k <= p <= n,
            space_end(f, p as nat) == space_end(f, k as nat),
        decreases n - p,
    {
        p = p + 1;
    }
    if p == n || field[p] == 0 {
        Ok((&i[n..i.len()], acc))
    } else {
        Err(ParseError { input: &field[p..n], kind: ErrorKind::OctDigit })
    }
}

pub fn parse_octal8<'a>(i: &'a [u8]) -> (r: Result<(&'a [u8], u64), ParseError<'a>>)
    ensures
        i@.len() >= 8 ==> (r is Ok <==> octal_ok(i@.subrange(0, 8))),
        i@.len() < 8 ==> r is Err,
        r is Ok ==> r->Ok_0.0@ == i@.subrange(8, i@.len() as int)
            && r->Ok_0.1 == octal_of(i@.subrange(0, 8)),
{
    parse_octal(i, 8)
}

pub fn parse_octal12<'a>(i: &'a [u8]) -> (r: Result<(&'a [u8], u64), ParseError<'a>>)
    ensures
        i@.len() >= 12 ==> (r is Ok <==> octal_ok(i@.subrange(0, 12))),
        i@.len() < 12 ==> r is Err,
        r is Ok ==> r->Ok_0.0@ == i@.subrange(12, i@.len() as int)
            && r->Ok_0.1 == octal_of(i@.subrange(0, 12)),
{
    parse_octal(i, 12)
}


/// The kind of a record, from its one-byte tag.
#[derive(Clone, Copy, Debug, PartialEq, Eq, Structural)]
pub enum TypeFlag {
    NormalFile,
    HardLink,
    SymbolicLink,
    CharacterSpecial,
    BlockSpecial,
    Directory,
    Fifo,
    ContiguousFile,
    PaxGlobal,
    Pax,
    GnuDirectory,
    GnuLongLink,
    GnuLongName,
    GnuSparse,
    GnuVolumeHeader,
    VendorSpecific,
}

/// The tag table; a byte it does not name reads as vendor specific.
pub open spec fn type_flag_of(c: u8) -> TypeFlag {
    if c == 48 || c == 0 {
        TypeFlag::NormalFile
    } else if c == 49 {
        TypeFlag::HardLink
    } else if c == 50 {
        TypeFlag::SymbolicLink
    } else if c == 51 {
        TypeFlag::CharacterSpecial
    } else if c == 52 {
        TypeFlag::BlockSpecial
    } else if c == 53 {
        TypeFlag::Directory
    } else if c == 54 {
        TypeFlag::Fifo
    } else if c == 55 {
        TypeFlag::ContiguousFile
    } else if c == 103 {
        TypeFlag::PaxGlobal
    } else if c == 120 || c == 88 {
        TypeFlag::Pax
    } else if c == 68 {
        TypeFlag::GnuDirectory
    } else if c == 75 {
        TypeFlag::GnuLongLink
    } else if c == 76 {
        TypeFlag::GnuLongName
    } else if c == 83 {
        TypeFlag::GnuSparse
    } else if c == 86 {
        TypeFlag::GnuVolumeHeader
    } else {
        TypeFlag::VendorSpecific
    }
}

/// Reads the one-byte record tag.
pub fn parse_type_flag<'a>(i: &'a [u8]) -> (r: Result<(&'a [u8], TypeFlag), ParseError<'a>>)
    ensures
        i@.len() == 0 ==> r is Err && r->Err_0.kind == ErrorKind::Eof,
        i@.len() > 0 ==> r is Ok && r->Ok_0.0@ == i@.drop_first() && r->Ok_0.1 == type_flag_of(
            i@[0],
        ),
{
    if i.len() == 0 {
        return Err(ParseError { input: i, kind: ErrorKind::Eof });
    }
    let c = i[0];
    let flag = if c == 48 || c == 0 {
        TypeFlag::NormalFile
    } else if c == 49 {
        TypeFlag::HardLink
    } else if c == 50 {
        TypeFlag::SymbolicLink
    } else if c == 51 {
        TypeFlag::CharacterSpecial
    } else if c == 52 {
        TypeFlag::BlockSpecial
    } else if c == 53 {
        TypeFlag::Directory
    } else if c == 54 {
        TypeFlag::Fifo
    } else if c == 55 {
        TypeFlag::ContiguousFile
    } else if c == 103 {
        TypeFlag::PaxGlobal
    } else if c == 120 || c == 88 {
        TypeFlag::Pax
    } else if c == 68 {
        TypeFlag::GnuDirectory
    } else if c == 75 {
        TypeFlag::GnuLongLink
    } else if c == 76 {
        TypeFlag::GnuLongName
    } else if c == 83 {
        TypeFlag::GnuSparse
    } else if c == 86 {
        TypeFlag::GnuVolumeHeader
    } else {
        TypeFlag::VendorSpecific
    };
    let rest = &i[1..i.len()];
    assert(rest@ =~= i@.drop_first());
    Ok((rest, flag))
}

/// One run of data in a sparse file.
#[derive(Clone, Copy, Debug, PartialEq, Eq, Structural)]
pub struct Sparse {
    pub offset: u64,
    pub numbytes: u64,
}

/// Both octal fields of the sparse record at slot `k` are well formed.
pub open spec fn sparse_ok(s: Seq<u8>, k: int) -> bool {
    &&& octal_ok(s.subrange(24 * k, 24 * k + 12))
    &&& octal_ok(s.subrange(24 * k + 12, 24 * k + 24))
}

/// The sparse record at slot `k`.
pub open spec fn sparse_at(s: Seq<u8>, k: int) -> Sparse {
    Sparse {
        offset: octal_of(s.subrange(24 * k, 24 * k + 12)) as u64,
        numbytes: octal_of(s.subrange(24 * k + 12, 24 * k + 24)) as u64,
    }
}

/// `count` slots of sparse records are present and well formed.
pub open spec fn sparses_ok(s: Seq<u8>, count: nat) -> bool {
    &&& s.len() >= 24 * count
    &&& forall|k: int| 0 <= k < count ==> #[trigger] sparse_ok(s, k)
}

/// The used slots among the first `count`: an all-zero slot is unused.
pub open spec fn sparses_of(s: Seq<u8>, count: nat) -> Seq<Sparse>
    decreases count,
{
    if count == 0 {
        seq![]
    } else {
        let prev = sparses_of(s, (count - 1) as nat);
        let sp = sparse_at(s, count - 1);
        if sp.offset == 0 && sp.numbytes == 0 {
            prev
        } else {
            prev.push(sp)
        }
    }
}

/// Reads one sparse record: two 12-byte octal fields.
pub fn parse_sparse<'a>(i: &'a [u8]) -> (r: Result<(&'a [u8], Sparse), ParseError<'a>>)
    ensures
        r is Ok <==> i@.len() >= 24 && sparse_ok(i@, 0),
        r is Ok ==> r->Ok_0.0@ == i@.subrange(24, i@.len() as int) && r->Ok_0.1 == sparse_at(
            i@,
            0,
        ),
{
    let (i1, offset) = parse_octal12(i)?;
    proof {
        if i1@.len() >= 12 {
            assert(i1@.subrange(0, 12) =~= i@.subrange(12, 24));
        }
    }
    let (i2, numbytes) = parse_octal12(i1)?;
    assert(i2@ =~= i@.subrange(24, i@.len() as int));
    Ok((i2, Sparse { offset, numbytes }))
}

/// Reads `count` sparse records and keeps the used ones.
pub fn parse_sparses<'a>(i: &'a [u8], count: usize) -> (r: Result<(&'a [u8], Vec<Sparse>), ParseError<'a>>)
    ensures
        r is Ok <==> sparses_ok(i@, count as nat),
        r is Ok ==> r->Ok_0.0@ == i@.subrange(24 * count, i@.len() as int)
            && r->Ok_0.1@ == sparses_of(i@, count as nat),
{
    let mut res: Vec<Sparse> = Vec::new();
    let mut cur = i;
    let mut k: usize = 0;
    while k < count
        invariant
            k <= count,
            24 * k <= i@.len(),
            cur@ == i@.subrange(24 * k, i@.len() as int),
            forall|j: int| 0 <= j < k ==> #[trigger] sparse_ok(i@, j),
            res@ == sparses_of(i@, k as nat),
        decreases count - k,
    {
        match parse_sparse(cur) {
            Ok((next, sp)) => {
                assert(cur@.subrange(0, 12) =~= i@.subrange(24 * k, 24 * k + 12));
                assert(cur@.subrange(12, 24) =~= i@.subrange(24 * k + 12, 24 * k + 24));
                assert(next@ =~= i@.subrange(24 * (k + 1), i@.len() as int));
                if !(sp.offset == 0 && sp.numbytes == 0) {
                    res.push(sp);
                }
                cur = next;
                k = k + 1;
            },
            Err(e) => {
                proof {
                    if i@.len() >= 24 * count {
                        assert(cur@.subrange(0, 12) =~= i@.subrange(24 * k, 24 * k + 12));
                        assert(cur@.subrange(12, 24) =~= i@.subrange(24 * k + 12, 24 * k + 24));
                        assert(!sparse_ok(i@, k as int));
                    }
                }
                return Err(e);
            },
        }
    }
    Ok((cur, res))
}


/// The chain of GNU sparse extension blocks. Each block holds 21 sparse
/// records, a byte that says whether another block follows, and padding up
/// to 512 bytes. Gives the used records of the chain and its length in bytes.
pub open spec fn ext_chain(s: Seq<u8>, ext: bool) -> Option<(Seq<Sparse>, nat)>
    decreases s.len(),
{
    if !ext {
        Some((seq![], 0))
    } else if s.len() < 512 || !sparses_ok(s, 21) {
        None
    } else {
        match ext_chain(s.subrange(512, s.len() as int), s[504] != 0) {
            Some(t) => Some((sparses_of(s, 21) + t.0, t.1 + 512)),
            None => None,
        }
    }
}

proof fn lemma_ext_chain_len(s: Seq<u8>, ext: bool)
    requires
        ext_chain(s, ext) is Some,
    ensures
        ext_chain(s, ext)->Some_0.1 <= s.len(),
    decreases s.len(),
{
    if ext {
        lemma_ext_chain_len(s.subrange(512, s.len() as int), s[504] != 0);
    }
}

/// Records `a` and `u` bytes read before the rest of a chain.
pub open spec fn chain_join(a: Seq<Sparse>, u: nat, r: Option<(Seq<Sparse>, nat)>) -> Option<
    (Seq<Sparse>, nat),
> {
    match r {
        Some(t) => Some((a + t.0, u + t.1)),
        None => None,
    }
}

proof fn lemma_chain_join_assoc(
    a: Seq<Sparse>,
    u: nat,
    b: Seq<Sparse>,
    v: nat,
    r: Option<(Seq<Sparse>, nat)>,
)
    ensures
        chain_join(a, u, chain_join(b, v, r)) == chain_join(a + b, u + v, r),
{
    if let Some(t) = r {
        assert(a + (b + t.0) =~= (a + b) + t.0);
    }
}

/// Appends `extra` to `sparses`.
pub fn add_to_vec(sparses: &mut Vec<Sparse>, extra: Vec<Sparse>)
    ensures
        final(sparses)@ == old(sparses)@ + extra@,
{
    let mut k: usize = 0;
    while k < extra.len()
        invariant
            k <= extra@.len(),
            sparses@ == old(sparses)@ + extra@.subrange(0, k as int),
        decreases extra@.len() - k,
    {
        sparses.push(extra[k]);
        k = k + 1;
        assert(sparses@ =~= old(sparses)@ + extra@.subrange(0, k as int));
    }
    assert(extra@.subrange(0, k as int) =~= extra@);
}

/// Reads the chain of sparse extension blocks that follows a GNU header
/// whose extension flag is `isextended`, appending its records to `sparses`.
pub fn parse_extra_sparses<'a>(i: &'a [u8], isextended: bool, sparses: &mut Vec<Sparse>) -> (r:
    Result<&'a [u8], ParseError<'a>>)
    ensures
        r is Ok <==> ext_chain(i@, isextended) is Some,
        r is Ok ==> final(sparses)@ == old(sparses)@ + ext_chain(i@, isextended)->Some_0.0
            && r->Ok_0@ == i@.subrange(
            ext_chain(i@, isextended)->Some_0.1 as int,
            i@.len() as int,
        ),
{
    let mut cur = i;
    let mut ext = isextended;
    let ghost used: nat = 0;
    let ghost added: Seq<Sparse> = seq![];
    assert(cur@ =~= i@.subrange(0, i@.len() as int));
    assert(sparses@ =~= old(sparses)@ + added);
    while ext
        invariant
            used <= i@.len(),
            cur@ == i@.subrange(used as int, i@.len() as int),
            sparses@ == old(sparses)@ + added,
            chain_join(added, used, ext_chain(cur@, ext)) == ext_chain(i@, isextended),
        decreases cur@.len(),
    {
        let (c1, sps) = parse_sparses(cur, 21)?;
        let (c2, more) = parse_bool(c1)?;
        if c2.len() < 7 {
            return Err(ParseError { input: c2, kind: ErrorKind::Eof });
        }
        let c3 = &c2[7..c2.len()];
        assert(c3@ =~= cur@.subrange(512, cur@.len() as int));
        assert(c1@[0] == cur@[504]);
        proof {
            lemma_chain_join_assoc(added, used, sps@, 512, ext_chain(c3@, more));
        }
        add_to_vec(sparses, sps);
        proof {
            added = added + sps@;
            used = used + 512;
            assert(sparses@ =~= old(sparses)@ + added);
        }
        assert(c3@ =~= i@.subrange(used as int, i@.len() as int));
        cur = c3;
        ext = more;
    }
    assert(added + seq![] =~= added);
    Ok(cur)
}

/// Reads an octal field of `n` bytes at offset `a`.
fn octal_field<'a>(i: &'a [u8], a: usize, n: usize) -> (r: Result<u64, ParseError<'a>>)
    requires
        a + n <= i@.len(),
        n <= 21,
    ensures
        r is Ok <==> octal_ok(i@.subrange(a as int, a + n)),
        r is Ok ==> r->Ok_0 == octal_of(i@.subrange(a as int, a + n)),
{
    let f = &i[a..i.len()];
    assert(f@.subrange(0, n as int) =~= i@.subrange(a as int, a + n));
    match parse_octal(f, n) {
        Ok((_, v)) => Ok(v),
        Err(e) => Err(e),
    }
}

/// Reads a string field of `n` bytes at offset `a`.
fn str_field<'a>(i: &'a [u8], a: usize, n: usize) -> (r: Result<&'a str, ParseError<'a>>)
    requires
        a + n <= i@.len(),
    ensures
        r is Ok <==> str_ok(i@.subrange(a as int, a + n)),
        r is Ok ==> r->Ok_0.spec_bytes() == field_str(i@.subrange(a as int, a + n)),
{
    let f = &i[a..i.len()];
    assert(f@.subrange(0, n as int) =~= i@.subrange(a as int, a + n));
    match parse_str(f, n) {
        Ok((_, v)) => Ok(v),
        Err(e) => Err(e),
    }
}

/// The POSIX ustar fields after the common ones.
#[derive(Debug, PartialEq, Eq)]
pub struct PosixExtraHeader<'a> {
    pub prefix: &'a str,
}

/// The GNU fields after the common ones.
#[derive(Debug, PartialEq, Eq)]
pub struct GnuExtraHeader {
    pub atime: u64,
    pub ctime: u64,
    pub offset: u64,
    pub sparses: Vec<Sparse>,
    pub realsize: u64,
}

#[derive(Debug, PartialEq, Eq)]
pub enum UStarExtraHeader<'a> {
    Posix(PosixExtraHeader<'a>),
    Gnu(GnuExtraHeader),
}

/// The fields shared by both ustar dialects.
#[derive(Debug, PartialEq, Eq)]
pub struct UStarHeader<'a> {
    pub uname: &'a str,
    pub gname: &'a str,
    pub devmajor: u64,
    pub devminor: u64,
    pub extra: UStarExtraHeader<'a>,
}

/// The part of a header after the link name.
#[derive(Debug, PartialEq, Eq)]
pub enum ExtraHeader<'a> {
    UStar(UStarHeader<'a>),
    Padding,
}

pub open spec fn posix_ok(s: Seq<u8>) -> bool {
    &&& s.len() >= 167
    &&& str_ok(s.subrange(0, 155))
}

pub open spec fn gnu_ok(s: Seq<u8>) -> bool {
    &&& s.len() >= 167
    &&& octal_ok(s.subrange(0, 12))
    &&& octal_ok(s.subrange(12, 24))
    &&& octal_ok(s.subrange(24, 36))
    &&& sparses_ok(s.subrange(41, s.len() as int), 4)
    &&& octal_ok(s.subrange(138, 150))
    &&& ext_chain(s.subrange(167, s.len() as int), s[137] != 0) is Some
}

/// The extension chain of a well-formed GNU header.
pub open spec fn gnu_chain(s: Seq<u8>) -> (Seq<Sparse>, nat) {
    ext_chain(s.subrange(167, s.len() as int), s[137] != 0)->Some_0
}

pub open spec fn gnu_len(s: Seq<u8>) -> nat {
    167 + gnu_chain(s).1
}

pub open spec fn gnu_matches(h: GnuExtraHeader, s: Seq<u8>) -> bool {
    &&& h.atime == octal_of(s.subrange(0, 12))
    &&& h.ctime == octal_of(s.subrange(12, 24))
    &&& h.offset == octal_of(s.subrange(24, 36))
    &&& h.sparses@ == sparses_of(s.subrange(41, s.len() as int), 4) + gnu_chain(s).0
    &&& h.realsize == octal_of(s.subrange(138, 150))
}

/// Reads the POSIX ustar tail: the name prefix and padding.
pub fn parse_extra_posix<'a>(i: &'a [u8]) -> (r: Result<(&'a [u8], UStarExtraHeader<'a>), ParseError<'a>>)
    ensures
        r is Ok <==> posix_ok(i@),
        r is Ok ==> r->Ok_0.0@ == i@.subrange(167, i@.len() as int) && r->Ok_0.1 is Posix
            && r->Ok_0.1->Posix_0.prefix.spec_bytes() == field_str(i@.subrange(0, 155)),
{
    if i.len() < 167 {
        return Err(ParseError { input: i, kind: ErrorKind::Eof });
    }
    let prefix = str_field(i, 0, 155)?;
    Ok((&i[167..i.len()], UStarExtraHeader::Posix(PosixExtraHeader { prefix })))
}

/// Reads the GNU tail, with its inline sparse records and any extension blocks.
pub fn parse_extra_gnu<'a>(i: &'a [u8]) -> (r: Result<(&'a [u8], UStarExtraHeader<'a>), ParseError<'a>>)
    ensures
        r is Ok <==> gnu_ok(i@),
        r is Ok ==> r->Ok_0.0@ == i@.subrange(gnu_len(i@) as int, i@.len() as int)
            && r->Ok_0.1 is Gnu && gnu_matches(r->Ok_0.1->Gnu_0, i@),
{
    if i.len() < 167 {
        return Err(ParseError { input: i, kind: ErrorKind::Eof });
    }
    let atime = octal_field(i, 0, 12)?;
    let ctime = octal_field(i, 12, 12)?;
    let offset = octal_field(i, 24, 12)?;
    let (_, sps) = parse_sparses(&i[41..i.len()], 4)?;
    let isextended = i[137] != 0;
    let realsize = octal_field(i, 138, 12)?;
    let mut sparses: Vec<Sparse> = Vec::new();
    add_to_vec(&mut sparses, sps);
    let tail = &i[167..i.len()];
    let rest = parse_extra_sparses(tail, isextended, &mut sparses)?;
    proof {
        lemma_ext_chain_len(tail@, isextended);
    }
    assert(rest@ =~= i@.subrange(gnu_len(i@) as int, i@.len() as int));
    let header = GnuExtraHeader { atime, ctime, offset, sparses, realsize };
    Ok((rest, UStarExtraHeader::Gnu(header)))
}

/// The ustar magic and version of the GNU dialect (`gnu`) or the POSIX one.
pub open spec fn ustar_magic(s: Seq<u8>, gnu: bool) -> bool {
    &&& s.len() >= 8
    &&& s[0] == 117 && s[1] == 115 && s[2] == 116 && s[3] == 97 && s[4] == 114
    &&& if gnu {
        s[5] == 32 && s[6] == 32 && s[7] == 0
    } else {
        s[5] == 0 && s[6] == 48 && s[7] == 48
    }
}

pub open spec fn ustar_ok(s: Seq<u8>, gnu: bool) -> bool {
    &&& s.len() >= 88
    &&& ustar_magic(s, gnu)
    &&& str_ok(s.subrange(8, 40))
    &&& str_ok(s.subrange(40, 72))
    &&& octal_ok(s.subrange(72, 80))
    &&& octal_ok(s.subrange(80, 88))
    &&& if gnu {
        gnu_ok(s.subrange(88, s.len() as int))
    } else {
        posix_ok(s.subrange(88, s.len() as int))
    }
}

pub open spec fn ustar_len(s: Seq<u8>, gnu: bool) -> nat {
    if gnu {
        88 + gnu_len(s.subrange(88, s.len() as int))
    } else {
        255
    }
}

pub open spec fn ustar_matches(h: UStarHeader, s: Seq<u8>, gnu: bool) -> bool {
    &&& h.uname.spec_bytes() == field_str(s.subrange(8, 40))
    &&& h.gname.spec_bytes() == field_str(s.subrange(40, 72))
    &&& h.devmajor == octal_of(s.subrange(72, 80))
    &&& h.devminor == octal_of(s.subrange(80, 88))
    &&& if gnu {
        h.extra is Gnu && gnu_matches(h.extra->Gnu_0, s.subrange(88, s.len() as int))
    } else {
        h.extra is Posix && h.extra->Posix_0.prefix.spec_bytes() == field_str(s.subrange(88, 243))
    }
}

/// Reads a ustar tail of the GNU dialect (`gnu`) or of the POSIX one.
pub fn parse_ustar<'a>(i: &'a [u8], gnu: bool) -> (r: Result<(&'a [u8], ExtraHeader<'a>), ParseError<'a>>)
    ensures
        r is Ok <==> ustar_ok(i@, gnu),
        r is Ok ==> r->Ok_0.0@ == i@.subrange(ustar_len(i@, gnu) as int, i@.len() as int)
            && r->Ok_0.1 is UStar && ustar_matches(r->Ok_0.1->UStar_0, i@, gnu),
{
    if i.len() < 88 {
        return Err(ParseError { input: i, kind: ErrorKind::Eof });
    }
    let tag_ok = i[0] == 117 && i[1] == 115 && i[2] == 116 && i[3] == 97 && i[4] == 114 && if gnu {
        i[5] == 32 && i[6] == 32 && i[7] == 0
    } else {
        i[5] == 0 && i[6] == 48 && i[7] == 48
    };
    if !tag_ok {
        return Err(ParseError { input: i, kind: ErrorKind::Tag });
    }
    let uname = str_field(i, 8, 32)?;
    let gname = str_field(i, 40, 32)?;
    let devmajor = octal_field(i, 72, 8)?;
    let devminor = octal_field(i, 80, 8)?;
    let tail = &i[88..i.len()];
    let (rest, extra) = if gnu {
        parse_extra_gnu(tail)?
    } else {
        parse_extra_posix(tail)?
    };
    assert(tail@.subrange(0, 155) =~= i@.subrange(88, 243));
    proof {
        if gnu {
            lemma_ext_chain_len(tail@.subrange(167, tail@.len() as int), tail@[137] != 0);
        }
    }
    assert(rest@ =~= i@.subrange(ustar_len(i@, gnu) as int, i@.len() as int));
    Ok((rest, ExtraHeader::UStar(UStarHeader { uname, gname, devmajor, devminor, extra })))
}

/// Reads the unstructured tail of a classic header.
pub fn parse_old<'a>(i: &'a [u8]) -> (r: Result<(&'a [u8], ExtraHeader<'a>), ParseError<'a>>)
    ensures
        r is Ok <==> i@.len() >= 255,
        r is Ok ==> r->Ok_0.0@ == i@.subrange(255, i@.len() as int) && r->Ok_0.1 is Padding,
{
    if i.len() < 255 {
        return Err(ParseError { input: i, kind: ErrorKind::Eof });
    }
    Ok((&i[255..i.len()], ExtraHeader::Padding))
}


/// A record header.
#[derive(Debug, PartialEq, Eq)]
pub struct PosixHeader<'a> {
    pub name: &'a str,
    pub mode: u64,
    pub uid: u64,
    pub gid: u64,
    pub size: u64,
    pub mtime: u64,
    pub chksum: &'a str,
    pub typeflag: TypeFlag,
    pub linkname: &'a str,
    pub ustar: ExtraHeader<'a>,
}

/// One record: its header and the bytes of its contents.
#[derive(Debug, PartialEq, Eq)]
pub struct TarEntry<'a> {
    pub header: PosixHeader<'a>,
    pub contents: &'a [u8],
}

/// The tail after the link name is GNU ustar, else POSIX ustar, else padding.
pub open spec fn extra_ok(s: Seq<u8>) -> bool {
    ustar_ok(s, true) || ustar_ok(s, false) || s.len() >= 255
}

pub open spec fn extra_len(s: Seq<u8>) -> nat {
    if ustar_ok(s, true) {
        ustar_len(s, true)
    } else {
        255
    }
}

pub open spec fn extra_matches(e: ExtraHeader, s: Seq<u8>) -> bool {
    if ustar_ok(s, true) {
        e is UStar && ustar_matches(e->UStar_0, s, true)
    } else if ustar_ok(s, false) {
        e is UStar && ustar_matches(e->UStar_0, s, false)
    } else {
        e is Padding
    }
}

pub open spec fn header_ok(s: Seq<u8>) -> bool {
    &&& s.len() >= 257
    &&& str_ok(s.subrange(0, 100))
    &&& octal_ok(s.subrange(100, 108))
    &&& octal_ok(s.subrange(108, 116))
    &&& octal_ok(s.subrange(116, 124))
    &&& octal_ok(s.subrange(124, 136))
    &&& octal_ok(s.subrange(136, 148))
    &&& str_ok(s.subrange(148, 156))
    &&& str_ok(s.subrange(157, 257))
    &&& extra_ok(s.subrange(257, s.len() as int))
}

/// Bytes taken by a well-formed header, extension blocks included.
pub open spec fn header_len(s: Seq<u8>) -> nat {
    257 + extra_len(s.subrange(257, s.len() as int))
}

pub open spec fn header_matches(h: PosixHeader, s: Seq<u8>) -> bool {
    &&& h.name.spec_bytes() == field_str(s.subrange(0, 100))
    &&& h.mode == octal_of(s.subrange(100, 108))
    &&& h.uid == octal_of(s.subrange(108, 116))
    &&& h.gid == octal_of(s.subrange(116, 124))
    &&& h.size == octal_of(s.subrange(124, 136))
    &&& h.mtime == octal_of(s.subrange(136, 148))
    &&& h.chksum.spec_bytes() == field_str(s.subrange(148, 156))
    &&& h.typeflag == type_flag_of(s[156])
    &&& h.linkname.spec_bytes() == field_str(s.subrange(157, 257))
    &&& extra_matches(h.ustar, s.subrange(257, s.len() as int))
}

/// Reads a header block (and the GNU extension blocks that belong to it).
pub fn parse_header<'a>(i: &'a [u8]) -> (r: Result<(&'a [u8], PosixHeader<'a>), ParseError<'a>>)
    ensures
        r is Ok <==> header_ok(i@),
        r is Ok ==> header_len(i@) <= i@.len() && r->Ok_0.0@ == i@.subrange(
            header_len(i@) as int,
            i@.len() as int,
        ) && header_matches(r->Ok_0.1, i@),
{
    if i.len() < 257 {
        return Err(ParseError { input: i, kind: ErrorKind::Eof });
    }
    let name = str_field(i, 0, 100)?;
    let mode = octal_field(i, 100, 8)?;
    let uid = octal_field(i, 108, 8)?;
    let gid = octal_field(i, 116, 8)?;
    let size = octal_field(i, 124, 12)?;
    let mtime = octal_field(i, 136, 12)?;
    let chksum = str_field(i, 148, 8)?;
    let (_, typeflag) = parse_type_flag(&i[156..i.len()])?;
    let linkname = str_field(i, 157, 100)?;
    let tail = &i[257..i.len()];
    let (rest, ustar) = match parse_ustar(tail, true) {
        Ok(v) => v,
        Err(_) => match parse_ustar(tail, false) {
            Ok(v) => v,
            Err(_) => parse_old(tail)?,
        },
    };
    proof {
        if ustar_ok(tail@, true) {
            lemma_ext_chain_len(
                tail@.subrange(88, tail@.len() as int).subrange(
                    167,
                    tail@.len() - 88,
                ),
                tail@[225] != 0,
            );
        }
    }
    assert(rest@ =~= i@.subrange(header_len(i@) as int, i@.len() as int));
    let header = PosixHeader {
        name,
        mode,
        uid,
        gid,
        size,
        mtime,
        chksum,
        typeflag,
        linkname,
        ustar,
    };
    Ok((rest, header))
}

/// `size` rounded up to a whole number of 512-byte blocks.
pub open spec fn padded(size: nat) -> nat {
    if size % 512 == 0 {
        size
    } else {
        size + (512 - size % 512) as nat
    }
}

/// Reads `size` bytes of contents and the padding after them.
pub fn parse_contents<'a>(i: &'a [u8], size: u64) -> (r: Result<(&'a [u8], &'a [u8]), ParseError<'a>>)
    ensures
        r is Ok <==> padded(size as nat) <= i@.len(),
        r is Ok ==> r->Ok_0.1@ == i@.subrange(0, size as int) && r->Ok_0.0@ == i@.subrange(
            padded(size as nat) as int,
            i@.len() as int,
        ),
{
    if (i.len() as u64) < size {
        return Err(ParseError { input: i, kind: ErrorKind::Eof });
    }
    let n = size as usize;
    let trailing = n % 512;
    let padding: usize = if trailing == 0 {
        0
    } else {
        512 - trailing
    };
    if i.len() - n < padding {
        return Err(ParseError { input: i, kind: ErrorKind::Eof });
    }
    Ok((&i[n + padding..i.len()], &i[0..n]))
}

/// Bytes taken by a well-formed record: header, contents and padding.
pub open spec fn record_len(s: Seq<u8>) -> nat {
    header_len(s) + padded(octal_of(s.subrange(124, 136)))
}

pub open spec fn record_ok(s: Seq<u8>) -> bool {
    header_ok(s) && record_len(s) <= s.len()
}

pub open spec fn entry_matches(e: TarEntry, s: Seq<u8>) -> bool {
    &&& header_matches(e.header, s)
    &&& e.contents@ == s.subrange(
        header_len(s) as int,
        (header_len(s) + octal_of(s.subrange(124, 136))) as int,
    )
}

/// Reads one record.
pub fn parse_entry<'a>(i: &'a [u8]) -> (r: Result<(&'a [u8], TarEntry<'a>), ParseError<'a>>)
    ensures
        r is Ok <==> record_ok(i@),
        r is Ok ==> r->Ok_0.0@ == i@.subrange(record_len(i@) as int, i@.len() as int)
            && entry_matches(r->Ok_0.1, i@),
{
    let (rest, header) = parse_header(i)?;
    let (rest2, contents) = parse_contents(rest, header.size)?;
    assert(rest2@ =~= i@.subrange(record_len(i@) as int, i@.len() as int));
    assert(contents@ =~= i@.subrange(
        header_len(i@) as int,
        (header_len(i@) + octal_of(i@.subrange(124, 136))) as int,
    ));
    Ok((rest2, TarEntry { header, contents }))
}

/// The whole input is a sequence of well-formed records.
pub open spec fn tar_ok(s: Seq<u8>) -> bool
    decreases s.len(),
{
    if s.len() == 0 {
        true
    } else if record_ok(s) && record_len(s) > 0 {
        tar_ok(s.subrange(record_len(s) as int, s.len() as int))
    } else {
        false
    }
}

/// `es` are the records that make up `s`, in order.
pub open spec fn entries_match(es: Seq<TarEntry>, s: Seq<u8>) -> bool
    decreases es.len(),
{
    if es.len() == 0 {
        s.len() == 0
    } else {
        &&& record_ok(s)
        &&& entry_matches(es[0], s)
        &&& entries_match(es.drop_first(), s.subrange(record_len(s) as int, s.len() as int))
    }
}

/// Reads a whole archive; every byte must belong to a record.
pub fn parse_tar<'a>(i: &'a [u8]) -> (r: Result<(&'a [u8], Vec<TarEntry<'a>>), ParseError<'a>>)
    ensures
        r is Ok <==> tar_ok(i@),
        r is Ok ==> r->Ok_0.0@.len() == 0 && entries_match(r->Ok_0.1@, i@),
{
    let mut entries: Vec<TarEntry<'a>> = Vec::new();
    let mut cur = i;
    while cur.len() > 0
        invariant
            tar_ok(cur@) == tar_ok(i@),
            forall|es: Seq<TarEntry<'a>>| #[trigger]
                entries_match(es, cur@) ==> entries_match(entries@ + es, i@),
        decreases cur@.len(),
    {
        let (next, e) = parse_entry(cur)?;
        proof {
            assert forall|es: Seq<TarEntry<'a>>| #[trigger]
                entries_match(es, next@) implies entries_match(entries@.push(e) + es, i@) by {
                let es2 = seq![e] + es;
                assert(es2.drop_first() =~= es);
                assert(entries_match(es2, cur@));
                assert(entries@ + es2 =~= entries@.push(e) + es);
            }
        }
        entries.push(e);
        cur = next;
    }
    assert(entries_match(seq![], cur@));
    assert(entries@ + seq![] =~= entries@);
    Ok((cur, entries))
}

/// Reads the payload of a GNU long-name or long-link record.
pub fn parse_long_name<'a>(i: &'a [u8]) -> (r: Result<(&'a [u8], &'a str), ParseError<'a>>)
    ensures
        r is Ok <==> str_ok(i@),
        r is Ok ==> r->Ok_0.0@.len() == 0 && r->Ok_0.1.spec_bytes() == field_str(i@),
{
    assert(i@.subrange(0, i@.len() as int) =~= i@);
    parse_str(i, i.len())
}


pub open spec fn is_dec_digit(b: u8) -> bool {
    48 <= b && b <= 57
}

/// First index at or after `k` whose byte is not a decimal digit.
pub open spec fn dec_end(s: Seq<u8>, k: nat) -> nat
    decreases s.len() - k,
{
    if k < s.len() && is_dec_digit(s[k as int]) {
        dec_end(s, k + 1)
    } else {
        k
    }
}

/// Where the key of a PAX record ends: at its `=`.
pub open spec fn pax_key_end(s: Seq<u8>) -> nat {
    find_byte(s, dec_end(s, 0) + 1, 61)
}

/// Where the value of a PAX record ends: at its newline.
pub open spec fn pax_value_end(s: Seq<u8>) -> nat {
    find_byte(s, pax_key_end(s) + 1, 10)
}

/// `s` starts with a PAX record `<len> <key>=<value>\n` whose key and value
/// are UTF-8.
pub open spec fn pax_item_ok(s: Seq<u8>) -> bool {
    &&& dec_end(s, 0) > 0
    &&& dec_end(s, 0) < s.len()
    &&& s[dec_end(s, 0) as int] == 32
    &&& pax_key_end(s) < s.len()
    &&& pax_value_end(s) < s.len()
    &&& valid_utf8(s.subrange((dec_end(s, 0) + 1) as int, pax_key_end(s) as int))
    &&& valid_utf8(s.subrange((pax_key_end(s) + 1) as int, pax_value_end(s) as int))
}

pub open spec fn pax_key(s: Seq<u8>) -> Seq<u8> {
    s.subrange((dec_end(s, 0) + 1) as int, pax_key_end(s) as int)
}

pub open spec fn pax_value(s: Seq<u8>) -> Seq<u8> {
    s.subrange((pax_key_end(s) + 1) as int, pax_value_end(s) as int)
}

/// First index at or after `k` that holds `c`, or the length.
fn find_from(i: &[u8], k: usize, c: u8) -> (r: usize)
    requires
        k <= i@.len(),
    ensures
        r == find_byte(i@, k as nat, c),
        k <= r <= i@.len(),
{
    let mut p = k;
    while p < i.len() && i[p] != c
        invariant
            k <= p <= i@.len(),
            find_byte(i@, p as nat, c) == find_byte(i@, k as nat, c),
        decreases i@.len() - p,
    {
        p = p + 1;
    }
    p
}

/// Reads one PAX record as a key and a value.
pub fn parse_pax_item<'a>(i: &'a [u8]) -> (r: Result<(&'a [u8], (&'a str, &'a str)), ParseError<'a>>)
    ensures
        r is Ok <==> pax_item_ok(i@),
        r is Ok ==> r->Ok_0.0@ == i@.subrange((pax_value_end(i@) + 1) as int, i@.len() as int)
            && r->Ok_0.1.0.spec_bytes() == pax_key(i@) && r->Ok_0.1.1.spec_bytes() == pax_value(
            i@,
        ),
{
    let mut d: usize = 0;
    while d < i.len() && 48 <= i[d] && i[d] <= 57
        invariant
            d <= i@.len(),
            dec_end(i@, d as nat) == dec_end(i@, 0),
        decreases i@.len() - d,
    {
        d = d + 1;
    }
    if d == 0 || d == i.len() || i[d] != 32 {
        return Err(ParseError { input: &i[d..i.len()], kind: ErrorKind::Tag });
    }
    let ke = find_from(i, d + 1, 61);
    if ke == i.len() {
        return Err(ParseError { input: &i[d + 1..i.len()], kind: ErrorKind::Tag });
    }
    let ve = find_from(i, ke + 1, 10);
    if ve == i.len() {
        return Err(ParseError { input: &i[ke + 1..i.len()], kind: ErrorKind::Tag });
    }
    let key = match utf8(&i[d + 1..ke]) {
        Some(k) => k,
        None => return Err(ParseError { input: &i[d + 1..ke], kind: ErrorKind::Utf8 }),
    };
    let value = match utf8(&i[ke + 1..ve]) {
        Some(v) => v,
        None => return Err(ParseError { input: &i[ke + 1..ve], kind: ErrorKind::Utf8 }),
    };
    Ok((&i[ve + 1..i.len()], (key, value)))
}

/// The records of a PAX block, in order, up to the first that is malformed.
pub open spec fn pax_items(s: Seq<u8>) -> Seq<(Seq<u8>, Seq<u8>)>
    decreases s.len(),
{
    if pax_item_ok(s) {
        seq![(pax_key(s), pax_value(s))] + pax_items(
            s.subrange((pax_value_end(s) + 1) as int, s.len() as int),
        )
    } else {
        seq![]
    }
}

/// What is left of a PAX block after its well-formed records.
pub open spec fn pax_rest(s: Seq<u8>) -> Seq<u8>
    decreases s.len(),
{
    if pax_item_ok(s) {
        pax_rest(s.subrange((pax_value_end(s) + 1) as int, s.len() as int))
    } else {
        s
    }
}

/// The bytes of decoded PAX records.
pub open spec fn pax_view(v: Seq<(&str, &str)>) -> Seq<(Seq<u8>, Seq<u8>)> {
    Seq::new(v.len(), |k: int| (v[k].0.spec_bytes(), v[k].1.spec_bytes()))
}

/// Reads the records of a PAX block, stopping at the first malformed one.
pub fn parse_pax<'a>(i: &'a [u8]) -> (r: Result<(&'a [u8], Vec<(&'a str, &'a str)>), ParseError<'a>>)
    ensures
        r is Ok,
        r is Ok ==> pax_view(r->Ok_0.1@) == pax_items(i@) && r->Ok_0.0@ == pax_rest(i@),
{
    let mut items: Vec<(&'a str, &'a str)> = Vec::new();
    let mut cur = i;
    assert(pax_view(items@) + pax_items(cur@) =~= pax_items(i@));
    loop
        invariant
            pax_view(items@) + pax_items(cur@) == pax_items(i@),
            pax_rest(cur@) == pax_rest(i@),
        decreases cur@.len(),
    {
        match parse_pax_item(cur) {
            Ok((next, item)) => {
                proof {
                    let v = pax_view(items@.push(item));
                    assert(v =~= pax_view(items@).push((item.0.spec_bytes(), item.1.spec_bytes())));
                    assert(v + pax_items(next@) =~= pax_view(items@) + pax_items(cur@));
                }
                items.push(item);
                cur = next;
            },
            Err(_) => {
                assert(pax_view(items@) + pax_items(cur@) =~= pax_view(items@));
                return Ok((cur, items));
            },
        }
    }
}

/// The value of the last PAX record whose key is `key`.
pub open spec fn pax_lookup(items: Seq<(Seq<u8>, Seq<u8>)>, key: Seq<u8>) -> Option<Seq<u8>>
    decreases items.len(),
{
    if items.len() == 0 {
        None
    } else if items.last().0 == key {
        Some(items.last().1)
    } else {
        pax_lookup(items.drop_last(), key)
    }
}

/// Byte-wise equality.
pub fn bytes_eq(a: &[u8], b: &[u8]) -> (r: bool)
    ensures
        r == (a@ == b@),
{
    if a.len() != b.len() {
        return false;
    }
    let mut k: usize = 0;
    while k < a.len()
        invariant
            a@.len() == b@.len(),
            k <= a@.len(),
            forall|j: int| 0 <= j < k ==> a@[j] == b@[j],
        decreases a@.len() - k,
    {
        if a[k] != b[k] {
            return false;
        }
        k = k + 1;
    }
    assert(a@ =~= b@);
    true
}

/// Looks up `key` among decoded PAX records; a later record wins.
pub fn pax_get<'a>(items: &Vec<(&'a str, &'a str)>, key: &[u8]) -> (r: Option<&'a str>)
    ensures
        r is Some <==> pax_lookup(pax_view(items@), key@) is Some,
        r is Some ==> r->Some_0.spec_bytes() == pax_lookup(pax_view(items@), key@)->Some_0,
{
    let ghost v = pax_view(items@);
    let mut k = items.len();
    assert(v.subrange(0, k as int) =~= v);
    while k > 0
        invariant
            k <= items@.len(),
            v == pax_view(items@),
            pax_lookup(v.subrange(0, k as int), key@) == pax_lookup(v, key@),
        decreases k,
    {
        k = k - 1;
        let (name, value) = items[k];
        let hit = bytes_eq(name.as_bytes(), key);
        assert(v.subrange(0, k + 1).drop_last() =~= v.subrange(0, k as int));
        if hit {
            return Some(value);
        }
    }
    None
}

/// The number written by a run of decimal digits.
pub open spec fn dec_value(s: Seq<u8>) -> nat
    decreases s.len(),
{
    if s.len() == 0 {
        0
    } else {
        dec_value(s.drop_last()) * 10 + (s.last() - 48) as nat
    }
}

/// The digits of a decimal number after an optional `+`.
pub open spec fn dec_digits(s: Seq<u8>) -> Seq<u8> {
    if s.len() > 0 && s[0] == 43 {
        s.drop_first()
    } else {
        s
    }
}

/// `s` is an optional `+` and at least one digit, and its value fits in 64 bits.
pub open spec fn dec_ok(s: Seq<u8>) -> bool {
    let t = dec_digits(s);
    &&& t.len() > 0
    &&& forall|j: int| 0 <= j < t.len() ==> is_dec_digit(#[trigger] t[j])
    &&& dec_value(t) <= u64::MAX
}

proof fn lemma_dec_prefix(t: Seq<u8>, j: int)
    requires
        0 <= j <= t.len(),
        forall|k: int| 0 <= k < t.len() ==> is_dec_digit(#[trigger] t[k]),
    ensures
        dec_value(t.subrange(0, j)) <= dec_value(t),
    decreases t.len(),
{
    if j == t.len() {
        assert(t.subrange(0, j) =~= t);
    } else {
        let u = t.drop_last();
        assert(u.subrange(0, j) =~= t.subrange(0, j));
        lemma_dec_prefix(u, j);
    }
}

/// Reads an unsigned 64-bit decimal number: an optional `+`, then digits.
pub fn parse_decimal(s: &[u8]) -> (r: Option<u64>)
    ensures
        r is Some <==> dec_ok(s@),
        r is Some ==> r->Some_0 == dec_value(dec_digits(s@)),
{
    let start: usize = if s.len() > 0 && s[0] == 43 {
        1
    } else {
        0
    };
    let ghost t = dec_digits(s@);
    assert(t =~= s@.subrange(start as int, s@.len() as int));
    if start == s.len() {
        return None;
    }
    let mut k: usize = start;
    let mut acc: u64 = 0;
    while k < s.len()
        invariant
            start <= k <= s@.len(),
            t == s@.subrange(start as int, s@.len() as int),
            t == dec_digits(s@),
            forall|j: int| 0 <= j < k - start ==> is_dec_digit(#[trigger] t[j]),
            acc == dec_value(t.subrange(0, k - start)),
        decreases s@.len() - k,
    {
        let c = s[k];
        if !(48 <= c && c <= 57) {
            assert(!is_dec_digit(t[k - start]));
            return None;
        }
        assert(t.subrange(0, k - start + 1).drop_last() =~= t.subrange(0, k - start));
        match acc.checked_mul(10) {
            Some(m) => match m.checked_add((c - 48) as u64) {
                Some(v) => {
                    acc = v;
                },
                None => {
                    proof {
                        if forall|j: int| 0 <= j < t.len() ==> is_dec_digit(#[trigger] t[j]) {
                            lemma_dec_prefix(t, k - start + 1);
                        }
                    }
                    return None;
                },
            },
            None => {
                proof {
                    if forall|j: int| 0 <= j < t.len() ==> is_dec_digit(#[trigger] t[j]) {
                        lemma_dec_prefix(t, k - start + 1);
                    }
                }
                return None;
            },
        }
        k = k + 1;
    }
    assert(t.subrange(0, k - start) =~= t);
    Some(acc)
}

} // verus!
