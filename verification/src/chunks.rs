//! The chunk store: chunks are looked up by identifier in a tree of files,
//! under a fixed order of file names, parsed once and kept.

use vstd::prelude::*;
use vstd::string::StringExecFns;
use crate::directive::{parsed, ShaderFile, ShaderFileView};
use crate::error::{ProgramError, ProgramErrorView};
use crate::text::{remove_spaces, without_spaces};
use crate::tree::{find_first, get_file_from_dir, FileView, VirtualDir};

verus! {

/// The file names under which the chunk `chunk` is looked for, in the order
/// in which they are tried: with the version, without it, and both again
/// under `functions/`.
pub open spec fn chunk_paths(chunk: Seq<char>, version: Seq<char>) -> Seq<Seq<char>> {
    seq![
        chunk + "."@ + version + ".glsl"@,
        chunk + ".glsl"@,
        "functions/"@ + chunk + "."@ + version + ".glsl"@,
        "functions/"@ + chunk + ".glsl"@,
    ]
}

/// The file that holds the chunk `chunk`: the one under the first of its
/// names that exists.
pub open spec fn chunk_file(files: Seq<FileView>, version: Seq<char>, chunk: Seq<char>) -> Option<
    FileView,
> {
    find_first(files, chunk_paths(chunk, version))
}

/// The chunk `chunk`, parsed, if a file holds it.
pub open spec fn chunk_of(files: Seq<FileView>, version: Seq<char>, chunk: Seq<char>) -> Option<
    ShaderFileView,
> {
    match chunk_file(files, version, chunk) {
        Some(file) => Some(parsed(file.contents)),
        None => None,
    }
}

/// Those of `chunks` that a file holds.
pub open spec fn with_file(
    files: Seq<FileView>,
    version: Seq<char>,
    chunks: Seq<Seq<char>>,
) -> Set<Seq<char>> {
    Set::new(|chunk: Seq<char>| chunks.contains(chunk) && chunk_of(files, version, chunk) is Some)
}

/// One more chunk is one more that a file holds, if a file holds it.
pub proof fn lemma_with_file_push(
    files: Seq<FileView>,
    version: Seq<char>,
    chunks: Seq<Seq<char>>,
    chunk: Seq<char>,
)
    ensures
        with_file(files, version, chunks.push(chunk)) == if chunk_of(files, version, chunk)
            is Some {
            with_file(files, version, chunks).insert(chunk)
        } else {
            with_file(files, version, chunks)
        },
{
    let more = chunks.push(chunk);
    assert forall|other: Seq<char>| more.contains(other) <==> chunks.contains(other) || other
        == chunk by {
        if chunks.contains(other) {
            let i = chunks.index_of(other);
            assert(more[i] == other);
        }
        if more.contains(other) {
            let i = more.index_of(other);
            if i < chunks.len() {
                assert(chunks[i] == other);
            }
        }
        assert(more[chunks.len() as int] == chunk);
    }
    if chunk_of(files, version, chunk) is Some {
        assert(with_file(files, version, more) =~= with_file(files, version, chunks).insert(chunk));
    } else {
        assert(with_file(files, version, more) =~= with_file(files, version, chunks));
    }
}

/// Where both the name with the version and a later name exist, the file
/// with the version is the one that is used.
pub proof fn lemma_versioned_file_wins(files: Seq<FileView>, version: Seq<char>, chunk: Seq<char>)
    requires
        crate::tree::find_file(files, chunk + "."@ + version + ".glsl"@) is Some,
    ensures
        chunk_file(files, version, chunk) == crate::tree::find_file(
            files,
            chunk + "."@ + version + ".glsl"@,
        ),
{
}

/// The chunks of one tree of files for one version, with those already
/// parsed. A chunk that was parsed once is never parsed again nor dropped.
pub struct ChunksCache<'a> {
    chunks_directory: &'a VirtualDir,
    // The parsed chunks by identifier, each identifier once. A vector, and
    // no hash map: vstd says nothing of a map whose keys are strings.
    chunks_cache: Vec<(String, ShaderFile)>,
    glsl_version: String,
}

impl<'a> ChunksCache<'a> {
    /// The files in which the chunks are looked for.
    pub closed spec fn files(&self) -> Seq<FileView> {
        self.chunks_directory@.files
    }

    /// The version for which the chunks are looked for: the one given,
    /// without its spaces.
    pub closed spec fn version(&self) -> Seq<char> {
        self.glsl_version@
    }

    /// The identifiers of the chunks that are kept.
    pub closed spec fn cached(&self) -> Set<Seq<char>> {
        Set::new(
            |chunk: Seq<char>|
                exists|i: int|
                    0 <= i < self.chunks_cache.len() && (#[trigger] self.chunks_cache[i]).0@
                        == chunk,
        )
    }

    /// Every chunk that is kept is what parsing its file gives, and none is
    /// kept twice.
    pub closed spec fn well_formed(&self) -> bool {
        &&& forall|i: int|
            0 <= i < self.chunks_cache.len() ==> chunk_of(
                self.files(),
                self.version(),
                (#[trigger] self.chunks_cache[i]).0@,
            ) == Some(self.chunks_cache[i].1@)
        &&& forall|i: int, j: int|
            0 <= i < j < self.chunks_cache.len() ==> (#[trigger] self.chunks_cache[i]).0@ != (
            #[trigger] self.chunks_cache[j]).0@
    }

    /// A chunk that is kept has a file.
    pub proof fn lemma_cached_chunk_has_file(&self, chunk: Seq<char>)
        requires
            self.well_formed(),
            self.cached().contains(chunk),
        ensures
            chunk_of(self.files(), self.version(), chunk) is Some,
    {
    }

    /// A store over `chunks_directory` that holds no parsed chunk yet.
    pub fn new(chunks_directory: &'a VirtualDir, glsl_version: &str) -> (r: ChunksCache<'a>)
        ensures
            r.files() == chunks_directory@.files,
            r.version() == without_spaces(glsl_version@),
            r.cached() == Set::<Seq<char>>::empty(),
            r.well_formed(),
    {
        let r = ChunksCache {
            chunks_directory,
            chunks_cache: Vec::new(),
            glsl_version: remove_spaces(glsl_version),
        };
        assert(r.cached() =~= Set::<Seq<char>>::empty());
        r
    }

    /// The position of the chunk `chunk_path` among those kept.
    fn position(&self, chunk_path: &String) -> (r: Option<usize>)
        ensures
            r is Some <==> self.cached().contains(chunk_path@),
            r matches Some(i) ==> i < self.chunks_cache.len() && self.chunks_cache[i as int].0@
                == chunk_path@,
    {
        let mut i: usize = 0;
        while i < self.chunks_cache.len()
            invariant
                i <= self.chunks_cache.len(),
                forall|j: int| 0 <= j < i ==> (#[trigger] self.chunks_cache[j]).0@ != chunk_path@,
            decreases self.chunks_cache.len() - i,
        {
            if self.chunks_cache[i].0 == *chunk_path {
                return Some(i);
            }
            i += 1;
        }
        None
    }

    /// Whether the chunk `chunk_path` is kept.
    pub fn is_cached(&self, chunk_path: &String) -> (r: bool)
        ensures
            r == self.cached().contains(chunk_path@),
    {
        self.position(chunk_path).is_some()
    }

    /// The chunk `chunk_path`, parsed. It fails if and only if none of the
    /// four file names of the chunk exists, and then names the chunk.
    pub fn get_chunk(&mut self, chunk_path: String) -> (r: Result<ShaderFile, ProgramError>)
        requires
            old(self).well_formed(),
        ensures
            final(self).well_formed(),
            final(self).files() == old(self).files(),
            final(self).version() == old(self).version(),
            match chunk_of(old(self).files(), old(self).version(), chunk_path@) {
                Some(chunk) => r matches Ok(found) && found@ == chunk && final(self).cached()
                    == old(self).cached().insert(chunk_path@),
                None => r matches Err(error) && error@ == (ProgramErrorView::MissingChunk {
                    chunk: chunk_path@,
                }) && final(self).cached() == old(self).cached(),
            },
    {
        if let Some(i) = self.position(&chunk_path) {
            assert(final(self).cached() =~= old(self).cached().insert(chunk_path@));
            return Ok(self.chunks_cache[i].1.clone());
        }
        let mut full_name = chunk_path.clone();
        full_name.append(".");
        full_name.append(self.glsl_version.as_str());
        full_name.append(".glsl");
        let mut full_name_no_version = chunk_path.clone();
        full_name_no_version.append(".glsl");
        let mut full_name_functions = String::from_str("functions/");
        full_name_functions.append(chunk_path.as_str());
        full_name_functions.append(".");
        full_name_functions.append(self.glsl_version.as_str());
        full_name_functions.append(".glsl");
        let mut full_name_functions_no_version = String::from_str("functions/");
        full_name_functions_no_version.append(chunk_path.as_str());
        full_name_functions_no_version.append(".glsl");
        let paths = vec![
            full_name,
            full_name_no_version,
            full_name_functions,
            full_name_functions_no_version,
        ];
        assert(paths.deep_view() =~= chunk_paths(chunk_path@, self.version()));
        match get_file_from_dir(self.chunks_directory, paths.as_slice()) {
            None => Err(ProgramError::MissingChunk { chunk: chunk_path }),
            Some(file) => {
                let chunk = ShaderFile::new(file.contents.as_str());
                let found = chunk.clone();
                self.chunks_cache.push((chunk_path, chunk));
                assert(final(self).cached() =~= old(self).cached().insert(chunk_path@)) by {
                    let n = old(self).chunks_cache.len() as int;
                    assert(self.chunks_cache[n].0@ == chunk_path@);
                    assert forall|i: int| 0 <= i < n implies self.chunks_cache[i] == old(
                        self,
                    ).chunks_cache[i] by {}
                }
                Ok(found)
            },
        }
    }
}

} // verus!
