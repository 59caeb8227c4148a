//! The file that holds the index: a header of plain bytes and an archive behind it.

use vstd::prelude::*;

use crate::error::Error;
use crate::index::schema::{IndexFile, FORMAT_VERSION};
use crate::mirror::consent::RefreshOutcome;
use crate::text::{dec, dec_string};

verus! {

broadcast use vstd::string::group_string_axioms;

/// How long the header is.
pub const HEADER_LEN: usize = 16;

/// The bytes with which the header begins: `AUROXIDX`.
pub open spec fn magic() -> Seq<u8> {
    seq![0x41u8, 0x55, 0x52, 0x4f, 0x58, 0x49, 0x44, 0x58]
}

/// A number as four bytes, the lowest first.
pub open spec fn le_bytes(n: u32) -> Seq<u8> {
    seq![
        (n % 256) as u8,
        (n / 256 % 256) as u8,
        (n / 65536 % 256) as u8,
        (n / 16777216) as u8,
    ]
}

/// The number that four bytes write, the lowest first.
pub open spec fn from_le(b: Seq<u8>) -> u32 {
    (b[0] + 256 * b[1] + 65536 * b[2] + 16777216 * b[3]) as u32
}

/// The header of a file of this version: the magic bytes, the version and four
/// bytes that mean nothing yet.
pub open spec fn header_spec(version: u32) -> Seq<u8> {
    magic() + le_bytes(version) + seq![0u8, 0, 0, 0]
}

/// The header of a file of this version.
pub fn file_header(version: u32) -> (r: [u8; 16])
    ensures
        r@ == header_spec(version),
{
    let b0: u8 = (version % 256) as u8;
    let b1: u8 = (version / 256 % 256) as u8;
    let b2: u8 = (version / 65536 % 256) as u8;
    let b3: u8 = (version / 16777216) as u8;
    let r: [u8; 16] = [
        0x41,
        0x55,
        0x52,
        0x4f,
        0x58,
        0x49,
        0x44,
        0x58,
        b0,
        b1,
        b2,
        b3,
        0,
        0,
        0,
        0,
    ];
    assert(r@ =~= header_spec(version));
    r
}

/// A file that holds `archive`.
pub open spec fn seal_spec(archive: Seq<u8>) -> Seq<u8> {
    header_spec(FORMAT_VERSION) + archive
}

/// Puts the header before an archive.
pub fn seal(archive: &Vec<u8>) -> (r: Vec<u8>)
    ensures
        r@ == seal_spec(archive@),
{
    let header = file_header(FORMAT_VERSION);
    let mut r: Vec<u8> = Vec::new();
    r.extend_from_slice(header.as_slice());
    assert(r@ =~= header_spec(FORMAT_VERSION));
    r.extend_from_slice(archive.as_slice());
    assert(r@ =~= seal_spec(archive@));
    r
}

/// Whether a file has the header: it is long enough and begins with the magic
/// bytes.
pub open spec fn has_header(bytes: Seq<u8>) -> bool {
    bytes.len() >= HEADER_LEN && bytes.take(8) == magic()
}

/// The version that the header names.
pub open spec fn header_version(bytes: Seq<u8>) -> u32 {
    from_le(bytes.subrange(8, 12))
}

/// The archive in a file, or why this build does not read it.
pub open spec fn open_spec(bytes: Seq<u8>) -> Result<Seq<u8>, Seq<char>> {
    if !has_header(bytes) {
        Err("format predates v"@ + dec(FORMAT_VERSION as nat))
    } else if header_version(bytes) != FORMAT_VERSION {
        Err(
            "format changed (v"@ + dec(header_version(bytes) as nat) + " → v"@ + dec(
                FORMAT_VERSION as nat,
            ) + ")"@,
        )
    } else {
        Ok(bytes.skip(HEADER_LEN as int))
    }
}

fn begins_with_magic(bytes: &[u8]) -> (r: bool)
    requires
        bytes@.len() >= 8,
    ensures
        r == (bytes@.take(8) == magic()),
{
    let r = bytes[0] == 0x41 && bytes[1] == 0x55 && bytes[2] == 0x52 && bytes[3] == 0x4f && bytes[4]
        == 0x58 && bytes[5] == 0x49 && bytes[6] == 0x44 && bytes[7] == 0x58;
    proof {
        let t = bytes@.take(8);
        let m = magic();
        if t == m {
            assert(m.len() == 8);
            assert(t[0] == m[0] && t[1] == m[1] && t[2] == m[2] && t[3] == m[3] && t[4] == m[4]
                && t[5] == m[5] && t[6] == m[6] && t[7] == m[7]);
        }
        if r {
            assert(t =~= m);
        }
    }
    r
}

/// Takes the archive out of a file.
pub fn open_file<'a>(bytes: &'a [u8]) -> (r: Result<&'a [u8], Error>)
    ensures
        match r {
            Ok(archive) => open_spec(bytes@) == Ok::<Seq<u8>, Seq<char>>(archive@),
            Err(Error::IndexIncompatible(m)) => open_spec(bytes@) == Err::<Seq<u8>, Seq<char>>(m@),
            Err(_) => false,
        },
{
    if bytes.len() < HEADER_LEN || !begins_with_magic(bytes) {
        let mut m = "format predates v".to_owned();
        m.append(dec_string(FORMAT_VERSION as u64).as_str());
        return Err(Error::IndexIncompatible(m));
    }
    let ghost v = bytes@.subrange(8, 12);
    assert(v[0] == bytes@[8] && v[1] == bytes@[9] && v[2] == bytes@[10] && v[3] == bytes@[11]);
    let version: u32 = bytes[8] as u32 + 256 * (bytes[9] as u32) + 65536 * (bytes[10] as u32)
        + 16777216 * (bytes[11] as u32);
    assert(version == header_version(bytes@));
    if version != FORMAT_VERSION {
        let mut m = "format changed (v".to_owned();
        m.append(dec_string(version as u64).as_str());
        m.append(" → v");
        m.append(dec_string(FORMAT_VERSION as u64).as_str());
        m.append(")");
        return Err(Error::IndexIncompatible(m));
    }
    Ok(vstd::slice::slice_subrange(bytes, HEADER_LEN, bytes.len()))
}

/// The error for an archive whose bytes do not make sense.
pub fn corrupted() -> (r: Error)
    ensures
        r matches Error::IndexIncompatible(m) && m@ == "on-disk archive corrupted"@,
{
    Error::IndexIncompatible("on-disk archive corrupted".to_owned())
}

/// How the loading of the index goes on.
#[derive(Debug)]
pub enum Loading {
    /// It is over.
    Done(Result<IndexFile, Error>),
    /// Say this, refresh the databases and go on with [`after_refresh`].
    Resync {
        /// What the user is told.
        notice: String,
        /// Why the file cannot be read.
        reason: String,
    },
}

/// What the first attempt to load the index leads to. Only a file that this build
/// cannot read leads to a refresh, and only unless `noresync` forbids that.
pub fn after_load(loaded: Result<IndexFile, Error>, noresync: bool) -> (r: Loading)
    ensures
        match loaded {
            Err(Error::IndexIncompatible(reason)) => if noresync {
                r matches Loading::Done(Err(Error::IndexIncompatible(m))) && m@ == reason@
                    + "; --noresync set, run `aurox -Sy` to rebuild"@
            } else {
                r matches Loading::Resync { notice, reason: why } && why@ == reason@ && notice@
                    == "AUR index "@ + reason@ + "; resyncing database"@
            },
            other => r == Loading::Done(other),
        },
{
    match loaded {
        Err(Error::IndexIncompatible(reason)) => {
            if noresync {
                let mut m = reason;
                m.append("; --noresync set, run `aurox -Sy` to rebuild");
                Loading::Done(Err(Error::IndexIncompatible(m)))
            } else {
                let mut notice = "AUR index ".to_owned();
                notice.append(reason.as_str());
                notice.append("; resyncing database");
                Loading::Resync { notice, reason }
            }
        },
        other => Loading::Done(other),
    }
}

/// What a refresh that was to mend the file leads to: nothing, and the file is
/// loaded once more, or an error.
pub fn after_refresh(reason: &str, refreshed: Result<RefreshOutcome, Error>) -> (r: Option<Error>)
    ensures
        match refreshed {
            Ok(RefreshOutcome::Refreshed) => r is None,
            Ok(RefreshOutcome::AurSkipped(cause)) => r matches Some(Error::IndexIncompatible(m))
                && m@ == reason@ + "; AUR refresh skipped ("@ + cause.text()
                + ") — run `aurox -Sy` to rebuild"@,
            Err(e) => r == Some(e),
        },
{
    match refreshed {
        Ok(RefreshOutcome::Refreshed) => None,
        Ok(RefreshOutcome::AurSkipped(cause)) => {
            let mut m = reason.to_owned();
            m.append("; AUR refresh skipped (");
            m.append(cause.as_str());
            m.append(") — run `aurox -Sy` to rebuild");
            Some(Error::IndexIncompatible(m))
        },
        Err(e) => Some(e),
    }
}

/// Loads the index and, where this build cannot read it, refreshes the databases and
/// loads it once more. `load` reads the file; `refresh` is told what to say to the
/// user and refreshes.
pub fn load_or_resync<
    L: Fn() -> Result<IndexFile, Error>,
    R: Fn(&str) -> Result<RefreshOutcome, Error>,
>(noresync: bool, load: L, refresh: R) -> (r: Result<IndexFile, Error>)
    requires
        call_requires(load, ()),
        forall|s: &str| #[trigger] call_requires(refresh, (s,)),
    ensures
        exists|first: Result<IndexFile, Error>|
            {
                &&& #[trigger] call_ensures(load, (), first)
                &&& match first {
                    Err(Error::IndexIncompatible(reason)) => if noresync {
                        r matches Err(Error::IndexIncompatible(m)) && m@ == reason@
                            + "; --noresync set, run `aurox -Sy` to rebuild"@
                    } else {
                        exists|said: &str, refreshed: Result<RefreshOutcome, Error>|
                            {
                                &&& said@ == "AUR index "@ + reason@ + "; resyncing database"@
                                &&& #[trigger] call_ensures(refresh, (said,), refreshed)
                                &&& match refreshed {
                                    Ok(RefreshOutcome::Refreshed) => call_ensures(load, (), r),
                                    Ok(RefreshOutcome::AurSkipped(cause)) => r matches Err(
                                        Error::IndexIncompatible(m),
                                    ) && m@ == reason@ + "; AUR refresh skipped ("@ + cause.text()
                                        + ") — run `aurox -Sy` to rebuild"@,
                                    Err(e) => r == Err::<IndexFile, Error>(e),
                                }
                            }
                    },
                    other => r == other,
                }
            },
{
    let first = load();
    let ghost was = first;
    assert(call_ensures(load, (), was));
    match after_load(first, noresync) {
        Loading::Done(r) => r,
        Loading::Resync { notice, reason } => {
            let said = notice.as_str();
            let refreshed = refresh(said);
            assert(call_ensures(refresh, (said,), refreshed));
            match after_refresh(reason.as_str(), refreshed) {
                Some(e) => Err(e),
                None => load(),
            }
        },
    }
}

/// A number is read back as it was written.
proof fn lemma_le_round_trip(n: u32)
    ensures
        from_le(le_bytes(n)) == n,
{
    let a = n as int % 256;
    let b = n as int / 256 % 256;
    let c = n as int / 65536 % 256;
    let d = n as int / 16777216;
    assert(d < 256);
    assert(n as int / 65536 == (n as int / 256) / 256);
    assert(n as int / 16777216 == (n as int / 65536) / 256);
    assert(a + 256 * b + 65536 * c + 16777216 * d == n);
}

/// What was sealed is taken out again as it was.
pub proof fn law_sealed_archives_open(archive: Seq<u8>)
    ensures
        open_spec(seal_spec(archive)) == Ok::<Seq<u8>, Seq<char>>(archive),
{
    let f = seal_spec(archive);
    assert(f.take(8) =~= magic());
    assert(f.subrange(8, 12) =~= le_bytes(FORMAT_VERSION));
    lemma_le_round_trip(FORMAT_VERSION);
    assert(f.skip(HEADER_LEN as int) =~= archive);
}

/// A file of another version is never taken for one of this version, and the
/// reason names both versions.
pub proof fn law_other_versions_are_told_apart(version: u32, archive: Seq<u8>)
    requires
        version != FORMAT_VERSION,
    ensures
        open_spec(header_spec(version) + archive) == Err::<Seq<u8>, Seq<char>>(
            "format changed (v"@ + dec(version as nat) + " → v"@ + dec(FORMAT_VERSION as nat)
                + ")"@,
        ),
{
    let f = header_spec(version) + archive;
    assert(f.take(8) =~= magic());
    assert(f.subrange(8, 12) =~= le_bytes(version));
    lemma_le_round_trip(version);
}

} // verus!
