//! The path rules of project files: their default names, where a project's
//! audio lies, and which archive entries a project may hold. Paths are read
//! with Unix syntax, as `paths` reads them.

use vstd::prelude::*;
use crate::paths::{
    Component, path_components, path_file_stem, spec_components, spec_file_name, spec_file_stem,
    spec_join_relative, join_relative, lemma_file_name_is_plain, lemma_plain_segment_components,
    lemma_join_file_name,
};
use crate::text::{all_white, white_space, string_of, chars_of};

verus! {

/// Version of the project metadata format this library reads and writes.
pub const PROJECT_VERSION: u32 = 1;

/// Why a project cannot be opened.
#[derive(Debug, Clone, Copy, PartialEq, Eq, Structural)]
pub enum ProjectError {
    /// The metadata has a version other than `PROJECT_VERSION`.
    UnsupportedVersion(u32),
    /// The audio file name is not a plain file name inside the project.
    AudioNameNotPlain,
    /// An archive entry's name escapes the archive.
    UnsafeArchivePath,
    /// An archive entry lies below the archive root.
    EntryNotAtRoot,
    /// The archive, or one of its entries, cannot be read.
    UnreadableArchive,
}

/// The default file name of a project for an audio file: the audio file's
/// stem followed by `.ggproj`, or `project.ggproj` when the stem is missing or
/// blank.
pub open spec fn spec_default_project_file_name(audio_path: Seq<char>) -> Seq<char> {
    let stem = match spec_file_stem(audio_path) {
        Some(t) => if all_white(t) {
            seq!['p', 'r', 'o', 'j', 'e', 'c', 't']
        } else {
            t
        },
        None => seq!['p', 'r', 'o', 'j', 'e', 'c', 't'],
    };
    stem + seq!['.', 'g', 'g', 'p', 'r', 'o', 'j']
}

/// Whether a path is a single normal component: a plain file name.
pub open spec fn is_plain_file_name(name: Seq<char>) -> bool {
    let c = spec_components(name);
    c.len() == 1 && c[0] is Normal
}

fn all_white_exec(s: &Vec<char>) -> (b: bool)
    ensures
        b == all_white(s@),
{
    let mut i: usize = 0;
    while i < s.len()
        invariant
            0 <= i <= s@.len(),
            forall|k: int| 0 <= k < i ==> crate::text::is_white_space(#[trigger] s@[k]),
        decreases s@.len() - i,
    {
        if !white_space(s[i]) {
            return false;
        }
        i = i + 1;
    }
    true
}

/// The default file name of a project for the given audio file.
pub fn default_project_file_name(audio_path: &str) -> (r: String)
    ensures
        r@ == spec_default_project_file_name(audio_path@),
{
    let fallback = vec!['p', 'r', 'o', 'j', 'e', 'c', 't'];
    let mut name = match path_file_stem(audio_path) {
        Some(t) => if all_white_exec(&t) {
            fallback
        } else {
            t
        },
        None => fallback,
    };
    let ghost head = name@;
    name.push('.');
    name.push('g');
    name.push('g');
    name.push('p');
    name.push('r');
    name.push('o');
    name.push('j');
    proof {
        assert(name@ =~= head + seq!['.', 'g', 'g', 'p', 'r', 'o', 'j']);
    }
    string_of(&name)
}

/// Whether a path is a plain file name.
pub fn plain_file_name(name: &str) -> (b: bool)
    ensures
        b == is_plain_file_name(name@),
{
    let comps = path_components(name);
    if comps.len() != 1 {
        return false;
    }
    proof {
        assert(crate::paths::view_components(comps@)[0] == comps@[0]@);
    }
    match &comps[0] {
        Component::Normal(_) => true,
        _ => false,
    }
}

/// Where the audio of a project stored in `project_dir` lies: the audio file
/// name must be a plain file name, which is then joined onto the directory.
pub fn project_audio_path(project_dir: &str, audio_file_name: &str) -> (r: Result<
    String,
    ProjectError,
>)
    ensures
        is_plain_file_name(audio_file_name@) ==> (r matches Ok(p) && p@ == spec_join_relative(
            project_dir@,
            audio_file_name@,
        )),
        !is_plain_file_name(audio_file_name@) ==> r == Err::<String, ProjectError>(
            ProjectError::AudioNameNotPlain,
        ),
{
    if !plain_file_name(audio_file_name) {
        return Err(ProjectError::AudioNameNotPlain);
    }
    Ok(join_relative(project_dir, audio_file_name))
}

/// Checks project metadata read from `project_dir` and locates its audio: the
/// version must be `PROJECT_VERSION`, then the audio path is resolved as by
/// `project_audio_path`.
pub fn locate_project_audio(project_dir: &str, version: u32, audio_file_name: &str) -> (r: Result<
    String,
    ProjectError,
>)
    ensures
        version != PROJECT_VERSION ==> r == Err::<String, ProjectError>(
            ProjectError::UnsupportedVersion(version),
        ),
        version == PROJECT_VERSION && is_plain_file_name(audio_file_name@) ==> (r matches Ok(p)
            && p@ == spec_join_relative(project_dir@, audio_file_name@)),
        version == PROJECT_VERSION && !is_plain_file_name(audio_file_name@) ==> r == Err::<
            String,
            ProjectError,
        >(ProjectError::AudioNameNotPlain),
{
    if version != PROJECT_VERSION {
        return Err(ProjectError::UnsupportedVersion(version));
    }
    project_audio_path(project_dir, audio_file_name)
}

/// What becomes of one archive entry, given whether it is a directory and its
/// name as confined to the archive (none when the name escapes it):
/// directories are skipped (`Ok(None)`), escaping names and names with more
/// than one component are refused, and any other name is extracted under that
/// name.
pub open spec fn spec_entry_target(is_dir: bool, enclosed_name: Option<Seq<char>>) -> Result<
    Option<Seq<char>>,
    ProjectError,
> {
    if is_dir {
        Ok(None)
    } else {
        match enclosed_name {
            None => Err(ProjectError::UnsafeArchivePath),
            Some(n) => if spec_components(n).len() == 1 {
                Ok(Some(n))
            } else {
                Err(ProjectError::EntryNotAtRoot)
            },
        }
    }
}

/// Decides what to do with one entry of a project archive (see
/// `spec_entry_target`).
pub fn archive_entry_target(is_dir: bool, enclosed_name: Option<&str>) -> (r: Result<
    Option<String>,
    ProjectError,
>)
    ensures
        match spec_entry_target(
            is_dir,
            match enclosed_name {
                Some(n) => Some(n@),
                None => None,
            },
        ) {
            Ok(Some(n)) => r matches Ok(Some(s)) && s@ == n,
            Ok(None) => r == Ok::<Option<String>, ProjectError>(None),
            Err(e) => r == Err::<Option<String>, ProjectError>(e),
        },
{
    if is_dir {
        return Ok(None);
    }
    match enclosed_name {
        None => Err(ProjectError::UnsafeArchivePath),
        Some(n) => {
            let comps = path_components(n);
            if comps.len() != 1 {
                Err(ProjectError::EntryNotAtRoot)
            } else {
                let chars = chars_of(n);
                Ok(Some(string_of(&chars)))
            }
        },
    }
}

/// A project saved for an audio file records the file's name; loading the
/// project accepts that name and finds the audio in the project directory
/// under the same file name.
pub proof fn law_saved_audio_is_located(audio_path: Seq<char>, project_dir: Seq<char>)
    requires
        spec_file_name(audio_path) is Some,
    ensures
        ({
            let n = spec_file_name(audio_path)->0;
            &&& is_plain_file_name(n)
            &&& spec_file_name(spec_join_relative(project_dir, n)) == Some(n)
        }),
{
    let n = spec_file_name(audio_path)->0;
    lemma_file_name_is_plain(audio_path);
    lemma_plain_segment_components(n);
    lemma_join_file_name(project_dir, n);
}


/// The default project file name keeps the audio file's stem whenever that
/// stem holds any character that is not white space, and adds `.ggproj`;
/// only a missing or entirely blank stem gives `project.ggproj`.
pub proof fn law_default_project_name_keeps_stem(audio_path: Seq<char>)
    ensures
        ({
            let name = spec_default_project_file_name(audio_path);
            let ext = seq!['.', 'g', 'g', 'p', 'r', 'o', 'j'];
            match spec_file_stem(audio_path) {
                Some(stem) => if exists|k: int|
                    0 <= k < stem.len() && !crate::text::is_white_space(#[trigger] stem[k]) {
                    name == stem + ext
                } else {
                    name == seq!['p', 'r', 'o', 'j', 'e', 'c', 't'] + ext
                },
                None => name == seq!['p', 'r', 'o', 'j', 'e', 'c', 't'] + ext,
            }
        }),
{
    match spec_file_stem(audio_path) {
        Some(stem) => {
            if exists|k: int| 0 <= k < stem.len() && !crate::text::is_white_space(#[trigger] stem[k]) {
                let k = choose|k: int| 0 <= k < stem.len() && !crate::text::is_white_space(#[trigger] stem[k]);
                assert(!all_white(stem));
            } else {
                assert(all_white(stem));
            }
        },
        None => {},
    }
}

} // verus!
