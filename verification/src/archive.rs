//! Project archives: the zip bytes written for a project, the zip entries of
//! an archive's bytes, and the files a project archive yields once each entry
//! has passed the archive rules of `project`.

use vstd::prelude::*;
use crate::project::{archive_entry_target, spec_entry_target, ProjectError};
use crate::text::{chars_of, string_of};

verus! {

/// One entry of a zip archive, as read from it.
pub struct ArchiveEntry {
    /// Whether the entry is a directory.
    pub is_dir: bool,
    /// The entry's name, when it stays inside the archive.
    pub enclosed_name: Option<String>,
    /// The entry's uncompressed contents, or `None` when they cannot be read.
    pub contents: Option<Vec<u8>>,
}

/// An entry as plain values: directory flag, confined name, contents.
pub open spec fn entry_view(e: ArchiveEntry) -> (bool, Option<Seq<char>>, Option<Seq<u8>>) {
    (
        e.is_dir,
        match e.enclosed_name {
            Some(n) => Some(n@),
            None => None,
        },
        match e.contents {
            Some(c) => Some(c@),
            None => None,
        },
    )
}

/// An entry slot as plain values: `None` for an entry that cannot be opened.
pub open spec fn slot_view(e: Option<ArchiveEntry>) -> Option<(bool, Option<Seq<char>>, Option<Seq<u8>>)> {
    match e {
        Some(entry) => Some(entry_view(entry)),
        None => None,
    }
}

/// Entry slots as plain values.
pub open spec fn entries_view(v: Seq<Option<ArchiveEntry>>) -> Seq<
    Option<(bool, Option<Seq<char>>, Option<Seq<u8>>)>,
> {
    v.map_values(|e: Option<ArchiveEntry>| slot_view(e))
}

/// The entries that the zip reader gives for an archive's bytes, in archive
/// order: `None` when the bytes are not a readable zip archive; otherwise one
/// slot per entry, up to and including the first entry that cannot be opened,
/// whose slot is `None`. The name of an entry is read with the path syntax of
/// the platform the library is built for.
pub uninterp spec fn spec_zip_entries(archive: Seq<u8>) -> Option<
    Seq<Option<(bool, Option<Seq<char>>, Option<Seq<u8>>)>>,
>;

/// Reads the entries of a zip archive with `zip::ZipArchive`.
///
/// Trusted: the contract says that the result is what `spec_zip_entries`
/// names for the archive's bytes, each entry opened without a password by
/// `ZipArchive::by_index_decrypt` and read by `ZipFile::is_dir`,
/// `ZipFile::enclosed_name` and `Read::read_to_end`. What the zip format
/// decodes to is not written out.
#[verifier::external_body]
fn read_zip_entries(archive: &Vec<u8>) -> (r: Option<Vec<Option<ArchiveEntry>>>)
    ensures
        match spec_zip_entries(archive@) {
            Some(es) => r matches Some(v) && entries_view(v@) == es,
            None => r is None,
        },
{
    let mut zip = zip::ZipArchive::new(std::io::Cursor::new(archive.as_slice())).ok()?;
    let mut entries = Vec::new();
    for index in 0..zip.len() {
        let Ok(Ok(mut entry)) = zip.by_index_decrypt(index, &[]) else {
            entries.push(None);
            break;
        };
        let mut data = Vec::new();
        let contents = std::io::Read::read_to_end(&mut entry, &mut data).ok().map(|_| data);
        let enclosed_name = entry.enclosed_name().map(|p| p.to_string_lossy().into_owned());
        entries.push(Some(ArchiveEntry { is_dir: entry.is_dir(), enclosed_name, contents }));
    }
    Some(entries)
}

/// The files that the first `k` entry slots yield, in order: an entry that
/// cannot be opened refuses the archive; a directory is skipped; any other
/// entry is checked by the archive rules, whose refusal is the error, and then
/// yields its contents under its confined name, unless they cannot be read,
/// which refuses the archive.
pub open spec fn files_of_entries(
    entries: Seq<Option<(bool, Option<Seq<char>>, Option<Seq<u8>>)>>,
    k: int,
) -> Result<Seq<(Seq<char>, Seq<u8>)>, ProjectError>
    decreases k,
{
    if k <= 0 {
        Ok(Seq::empty())
    } else {
        match files_of_entries(entries, k - 1) {
            Err(e) => Err(e),
            Ok(files) => match entries[k - 1] {
                None => Err(ProjectError::UnreadableArchive),
                Some(entry) => match spec_entry_target(entry.0, entry.1) {
                    Err(e) => Err(e),
                    Ok(None) => Ok(files),
                    Ok(Some(name)) => match entry.2 {
                        None => Err(ProjectError::UnreadableArchive),
                        Some(contents) => Ok(files.push((name, contents))),
                    },
                },
            },
        }
    }
}

/// The files of a project archive: an archive that cannot be opened is
/// refused; otherwise its entries are taken in order as `files_of_entries`
/// says, the first refusal being the error.
pub open spec fn spec_project_archive_files(archive: Seq<u8>) -> Result<
    Seq<(Seq<char>, Seq<u8>)>,
    ProjectError,
> {
    match spec_zip_entries(archive) {
        None => Err(ProjectError::UnreadableArchive),
        Some(entries) => files_of_entries(entries, entries.len() as int),
    }
}

/// Files as plain values.
pub open spec fn files_view(files: Seq<(String, Vec<u8>)>) -> Seq<(Seq<char>, Seq<u8>)> {
    files.map_values(|f: (String, Vec<u8>)| (f.0@, f.1@))
}

proof fn lemma_error_persists(
    entries: Seq<Option<(bool, Option<Seq<char>>, Option<Seq<u8>>)>>,
    j: int,
    k: int,
    e: ProjectError,
)
    requires
        0 <= j <= k,
        files_of_entries(entries, j) == Err::<Seq<(Seq<char>, Seq<u8>)>, ProjectError>(e),
    ensures
        files_of_entries(entries, k) == Err::<Seq<(Seq<char>, Seq<u8>)>, ProjectError>(e),
    decreases k - j,
{
    if j < k {
        lemma_error_persists(entries, j, k - 1, e);
    }
}

/// The files of a project archive given as bytes (see
/// `spec_project_archive_files`).
pub fn project_archive_files(archive: &Vec<u8>) -> (r: Result<Vec<(String, Vec<u8>)>, ProjectError>)
    ensures
        match spec_project_archive_files(archive@) {
            Ok(files) => r matches Ok(v) && files_view(v@) == files,
            Err(e) => r == Err::<Vec<(String, Vec<u8>)>, ProjectError>(e),
        },
{
    let mut rest = match read_zip_entries(archive) {
        Some(read) => read,
        None => return Err(ProjectError::UnreadableArchive),
    };
    let ghost es = entries_view(rest@);
    let ghost mut i: int = 0;
    let mut files: Vec<(String, Vec<u8>)> = Vec::new();
    proof {
        assert(es.skip(0) =~= es);
        assert(files_view(files@) =~= Seq::<(Seq<char>, Seq<u8>)>::empty());
    }
    while rest.len() > 0
        invariant
            spec_zip_entries(archive@) == Some(es),
            0 <= i <= es.len(),
            entries_view(rest@) == es.skip(i),
            files_of_entries(es, i) == Ok::<Seq<(Seq<char>, Seq<u8>)>, ProjectError>(
                files_view(files@),
            ),
        decreases rest@.len(),
    {
        let ghost rest_before = rest@;
        proof {
            assert(entries_view(rest_before).len() == es.len() - i);
            assert(entries_view(rest_before)[0] == es.skip(i)[0]);
        }
        let slot = rest.remove(0);
        proof {
            assert(slot == rest_before[0]);
            assert(slot_view(slot) == es[i]);
            assert forall|j: int| 0 <= j < rest@.len() implies #[trigger] entries_view(rest@)[j]
                == es.skip(i + 1)[j] by {
                assert(rest@[j] == rest_before[j + 1]);
                assert(entries_view(rest_before)[j + 1] == es.skip(i)[j + 1]);
            }
            assert(entries_view(rest@) =~= es.skip(i + 1));
        }
        let entry = match slot {
            Some(entry) => entry,
            None => {
                proof {
                    lemma_error_persists(es, i + 1, es.len() as int, ProjectError::UnreadableArchive);
                }
                return Err(ProjectError::UnreadableArchive);
            },
        };
        let ghost ev = entry_view(entry);
        let ArchiveEntry { is_dir, enclosed_name, contents } = entry;
        let target = match enclosed_name {
            Some(name) => archive_entry_target(is_dir, Some(name.as_str())),
            None => archive_entry_target(is_dir, None),
        };
        let ghost before = files@;
        match target {
            Err(e) => {
                proof {
                    assert(spec_entry_target(ev.0, ev.1) == Err::<Option<Seq<char>>, ProjectError>(e));
                    lemma_error_persists(es, i + 1, es.len() as int, e);
                }
                return Err(e);
            },
            Ok(None) => {},
            Ok(Some(name)) => {
                let data = match contents {
                    Some(data) => data,
                    None => {
                        proof {
                            lemma_error_persists(
                                es,
                                i + 1,
                                es.len() as int,
                                ProjectError::UnreadableArchive,
                            );
                        }
                        return Err(ProjectError::UnreadableArchive);
                    },
                };
                files.push((name, data));
                proof {
                    assert(files_view(files@) =~= files_view(before).push(
                        (files@[files@.len() - 1].0@, files@[files@.len() - 1].1@),
                    ));
                }
            },
        }
        proof {
            i = i + 1;
        }
    }
    proof {
        assert(i == es.len());
    }
    Ok(files)
}

/// The bytes that the zip writer produces for a list of files, each written
/// in order as a deflated entry with Unix permissions 0644 under its name;
/// `None` when the writer refuses the list.
pub uninterp spec fn spec_zip_written(files: Seq<(Seq<char>, Seq<u8>)>) -> Option<Seq<u8>>;

/// Writes a zip archive in memory with `zip::ZipWriter`.
///
/// Trusted: the contract says that the result is what `spec_zip_written`
/// names for the files, written with `ZipWriter::start_file` and
/// `Write::write_all` in order and closed with `ZipWriter::finish`. What the
/// bytes of a zip archive are is not written out.
#[verifier::external_body]
fn write_zip_archive(files: &Vec<(String, Vec<u8>)>) -> (r: Option<Vec<u8>>)
    ensures
        match spec_zip_written(files_view(files@)) {
            Some(b) => r matches Some(v) && v@ == b,
            None => r is None,
        },
{
    let mut writer = zip::ZipWriter::new(std::io::Cursor::new(Vec::new()));
    let options = zip::write::FileOptions::default()
        .compression_method(zip::CompressionMethod::Deflated)
        .unix_permissions(0o644);
    for (name, contents) in files.iter() {
        writer.start_file(name.as_str(), options).ok()?;
        std::io::Write::write_all(&mut writer, contents).ok()?;
    }
    Some(writer.finish().ok()?.into_inner())
}

/// Name of the metadata entry of a project archive.
pub open spec fn spec_project_file_name() -> Seq<char> {
    seq!['p', 'r', 'o', 'j', 'e', 'c', 't', '.', 'j', 's', 'o', 'n']
}

/// `project.json`, the name of the metadata entry of a project archive.
pub fn project_file_name() -> (s: String)
    ensures
        s@ == spec_project_file_name(),
{
    let name = vec!['p', 'r', 'o', 'j', 'e', 'c', 't', '.', 'j', 's', 'o', 'n'];
    assert(name@ =~= spec_project_file_name());
    string_of(&name)
}

/// The archive of a project: its metadata as `project.json`, then the audio
/// under the audio file's name.
pub open spec fn spec_project_archive_entries(
    project_json: Seq<u8>,
    audio_file_name: Seq<char>,
    audio: Seq<u8>,
) -> Seq<(Seq<char>, Seq<u8>)> {
    seq![(spec_project_file_name(), project_json), (audio_file_name, audio)]
}

/// The bytes of a project archive (see `spec_project_archive_entries`).
pub fn project_archive_bytes(project_json: Vec<u8>, audio_file_name: &str, audio: Vec<u8>) -> (r:
    Option<Vec<u8>>)
    ensures
        match spec_zip_written(
            spec_project_archive_entries(project_json@, audio_file_name@, audio@),
        ) {
            Some(b) => r matches Some(v) && v@ == b,
            None => r is None,
        },
{
    let ghost json_view = project_json@;
    let ghost audio_view = audio@;
    let audio_name = string_of(&chars_of(audio_file_name));
    let mut files: Vec<(String, Vec<u8>)> = Vec::new();
    files.push((project_file_name(), project_json));
    files.push((audio_name, audio));
    assert(files_view(files@) =~= spec_project_archive_entries(
        json_view,
        audio_file_name@,
        audio_view,
    ));
    write_zip_archive(&files)
}

} // verus!
