//! Materials and the catalog of their programs: the two sources of a
//! material are composed, handed to a compiler, and the programs kept by
//! the material's name.

use vstd::prelude::*;
use vstd::string::StringExecFns;
use std::rc::Rc;
use crate::assemble::{create_program_part, part_chunks, program_part};
use crate::chunks::ChunksCache;
use crate::directive::{parsed, ShaderFile};
use crate::error::{ProgramError, ProgramErrorView, Stage};
use crate::text::{remove_spaces, without_spaces};
use crate::tree::{find_first, get_file_from_dir, DirView, FileView, VirtualDir};

verus! {

/// The name of the source file of a stage, without what follows it.
pub open spec fn stage_file(stage: Stage) -> Seq<char> {
    match stage {
        Stage::Vertex => "vert"@,
        Stage::Fragment => "frag"@,
    }
}

/// The file names under which the source of a stage of `material` is
/// looked for, in the order in which they are tried: with the version, and
/// without it. As in the names of the chunks' files, the version stands
/// without its spaces.
pub open spec fn stage_paths(material: Seq<char>, stage: Stage, glsl_version: Seq<char>) -> Seq<
    Seq<char>,
> {
    seq![
        material + "/"@ + stage_file(stage) + "."@ + without_spaces(glsl_version) + ".glsl"@,
        material + "/"@ + stage_file(stage) + ".glsl"@,
    ]
}

/// The chunks that every source of a stage requires before its own.
pub open spec fn stage_defaults(stage: Stage) -> Seq<Seq<char>> {
    match stage {
        Stage::Vertex => seq!["attributes/common"@, "uniforms/common"@],
        Stage::Fragment => seq!["uniforms/common"@],
    }
}

/// The composed source of one stage of `material`, or why there is none:
/// the stage has no file, or a chunk is missing.
pub open spec fn stage_source(
    materials: Seq<FileView>,
    files: Seq<FileView>,
    version: Seq<char>,
    material: Seq<char>,
    stage: Stage,
    glsl_version: Seq<char>,
) -> Result<Seq<char>, ProgramErrorView> {
    match find_first(materials, stage_paths(material, stage, glsl_version)) {
        None => Err(ProgramErrorView::MissingStageFile { material, stage }),
        Some(file) => match program_part(
            files,
            version,
            stage_defaults(stage),
            parsed(file.contents),
            glsl_version,
        ) {
            Ok(text) => Ok(text),
            Err(chunk) => Err(ProgramErrorView::MissingChunk { chunk }),
        },
    }
}

/// The chunks that are got from the store while the source of one stage of
/// `material` is composed: none where the stage has no file.
pub open spec fn stage_chunks(
    materials: Seq<FileView>,
    files: Seq<FileView>,
    version: Seq<char>,
    material: Seq<char>,
    stage: Stage,
    glsl_version: Seq<char>,
) -> Set<Seq<char>> {
    match find_first(materials, stage_paths(material, stage, glsl_version)) {
        None => Set::empty(),
        Some(file) => part_chunks(
            files,
            version,
            stage_defaults(stage),
            parsed(file.contents).required,
        ),
    }
}

/// The chunks that are got from the store while both sources of `material`
/// are composed: those of the vertex stage, and, where that stage does not
/// fail, those of the fragment stage.
pub open spec fn sources_chunks(
    materials: Seq<FileView>,
    files: Seq<FileView>,
    version: Seq<char>,
    material: Seq<char>,
    glsl_version: Seq<char>,
) -> Set<Seq<char>> {
    let vertex = stage_chunks(materials, files, version, material, Stage::Vertex, glsl_version);
    match stage_source(materials, files, version, material, Stage::Vertex, glsl_version) {
        Err(_) => vertex,
        Ok(_) => vertex.union(
            stage_chunks(materials, files, version, material, Stage::Fragment, glsl_version),
        ),
    }
}

/// The composed vertex and fragment sources of `material`, or the first
/// failure: the vertex stage comes first.
pub open spec fn program_sources(
    materials: Seq<FileView>,
    files: Seq<FileView>,
    version: Seq<char>,
    material: Seq<char>,
    glsl_version: Seq<char>,
) -> Result<(Seq<char>, Seq<char>), ProgramErrorView> {
    match stage_source(materials, files, version, material, Stage::Vertex, glsl_version) {
        Err(error) => Err(error),
        Ok(vertex) => match stage_source(
            materials,
            files,
            version,
            material,
            Stage::Fragment,
            glsl_version,
        ) {
            Err(error) => Err(error),
            Ok(fragment) => Ok((vertex, fragment)),
        },
    }
}

/// The composed source of one stage of the material `material_name`. The
/// stage's file is looked for under the version without its spaces, then
/// without a version; the version line holds the version as given. Where
/// the stage has no file, no chunk is asked of the store.
pub fn load_stage(
    materials_directory: &VirtualDir,
    chunks_cache: &mut ChunksCache,
    material_name: &str,
    glsl_version: &str,
    stage: Stage,
) -> (r: Result<String, ProgramError>)
    requires
        old(chunks_cache).well_formed(),
    ensures
        final(chunks_cache).well_formed(),
        final(chunks_cache).files() == old(chunks_cache).files(),
        final(chunks_cache).version() == old(chunks_cache).version(),
        final(chunks_cache).cached() == old(chunks_cache).cached().union(
            stage_chunks(
                materials_directory@.files,
                old(chunks_cache).files(),
                old(chunks_cache).version(),
                material_name@,
                stage,
                glsl_version@,
            ),
        ),
        match stage_source(
            materials_directory@.files,
            old(chunks_cache).files(),
            old(chunks_cache).version(),
            material_name@,
            stage,
            glsl_version@,
        ) {
            Ok(text) => r matches Ok(source) && source@ == text,
            Err(failure) => r matches Err(error) && error@ == failure,
        },
{
    let mut file_path = String::from_str(material_name);
    let mut file_path_no_version = String::from_str(material_name);
    match stage {
        Stage::Vertex => {
            file_path.append("/");
            file_path.append("vert");
            file_path_no_version.append("/");
            file_path_no_version.append("vert");
        },
        Stage::Fragment => {
            file_path.append("/");
            file_path.append("frag");
            file_path_no_version.append("/");
            file_path_no_version.append("frag");
        },
    }
    let version = remove_spaces(glsl_version);
    file_path.append(".");
    file_path.append(version.as_str());
    file_path.append(".glsl");
    file_path_no_version.append(".glsl");
    let paths = vec![file_path, file_path_no_version];
    assert(paths.deep_view() =~= stage_paths(material_name@, stage, glsl_version@));
    match get_file_from_dir(materials_directory, paths.as_slice()) {
        None => {
            assert(chunks_cache.cached().union(Set::<Seq<char>>::empty())
                =~= chunks_cache.cached());
            Err(ProgramError::MissingStageFile { material: String::from_str(material_name), stage })
        },
        Some(file) => {
            let shader_file = ShaderFile::new(file.contents.as_str());
            match stage {
                Stage::Vertex => {
                    let defaults = ["attributes/common", "uniforms/common"];
                    assert(defaults.deep_view() =~= stage_defaults(stage));
                    create_program_part(chunks_cache, &defaults, &shader_file, glsl_version)
                },
                Stage::Fragment => {
                    let defaults = ["uniforms/common"];
                    assert(defaults.deep_view() =~= stage_defaults(stage));
                    create_program_part(chunks_cache, &defaults, &shader_file, glsl_version)
                },
            }
        },
    }
}

/// The composed vertex and fragment sources of the material
/// `material_name`. It fails if and only if a stage has no file or a chunk
/// is missing, with the failure that comes first: the vertex stage before
/// the fragment stage, and in each the file before the chunks.
pub fn load_sources(
    materials_directory: &VirtualDir,
    chunks_cache: &mut ChunksCache,
    material_name: &str,
    glsl_version: &str,
) -> (r: Result<(String, String), ProgramError>)
    requires
        old(chunks_cache).well_formed(),
    ensures
        final(chunks_cache).well_formed(),
        final(chunks_cache).files() == old(chunks_cache).files(),
        final(chunks_cache).version() == old(chunks_cache).version(),
        final(chunks_cache).cached() == old(chunks_cache).cached().union(
            sources_chunks(
                materials_directory@.files,
                old(chunks_cache).files(),
                old(chunks_cache).version(),
                material_name@,
                glsl_version@,
            ),
        ),
        match program_sources(
            materials_directory@.files,
            old(chunks_cache).files(),
            old(chunks_cache).version(),
            material_name@,
            glsl_version@,
        ) {
            Ok(texts) => r matches Ok(sources) && sources.0@ == texts.0 && sources.1@ == texts.1,
            Err(failure) => r matches Err(error) && error@ == failure,
        },
{
    let vertex_part = match load_stage(
        materials_directory,
        chunks_cache,
        material_name,
        glsl_version,
        Stage::Vertex,
    ) {
        Err(error) => {
            return Err(error);
        },
        Ok(source) => source,
    };
    let fragment = load_stage(
        materials_directory,
        chunks_cache,
        material_name,
        glsl_version,
        Stage::Fragment,
    );
    assert(chunks_cache.cached() =~= old(chunks_cache).cached().union(
        sources_chunks(
            materials_directory@.files,
            old(chunks_cache).files(),
            old(chunks_cache).version(),
            material_name@,
            glsl_version@,
        ),
    ));
    let fragment_part = match fragment {
        Err(error) => {
            return Err(error);
        },
        Ok(source) => source,
    };
    Ok((vertex_part, fragment_part))
}

/// Whether the compiler `compile` can answer `outcome` to the sources
/// `vertex` and `fragment`.
pub open spec fn compiles_to<P, F: Fn(&str, &str) -> Result<P, String>>(
    compile: F,
    vertex: Seq<char>,
    fragment: Seq<char>,
    outcome: Result<P, Seq<char>>,
) -> bool {
    exists|vertex_source: &str, fragment_source: &str, answer: Result<P, String>|
        {
            &&& vertex_source@ == vertex
            &&& fragment_source@ == fragment
            &&& #[trigger] call_ensures(compile, (vertex_source, fragment_source), answer)
            &&& match answer {
                Ok(program) => outcome == Ok::<P, Seq<char>>(program),
                Err(message) => outcome == Err::<P, Seq<char>>(message@),
            }
        }
}

/// What becomes of a compiler's answer: its program, or the failure that
/// holds its message and both sources in full.
pub fn compiled<P>(answer: Result<P, String>, vertex_source: String, fragment_source: String) -> (r:
    Result<P, ProgramError>)
    ensures
        match answer {
            Ok(program) => r matches Ok(kept) && kept == program,
            Err(message) => r matches Err(error) && error@ == (ProgramErrorView::CompileFailed {
                message: message@,
                vertex_source: vertex_source@,
                fragment_source: fragment_source@,
            }),
        },
{
    match answer {
        Ok(program) => Ok(program),
        Err(message) => Err(ProgramError::CompileFailed { message, vertex_source, fragment_source }),
    }
}

/// Whether `program` is what loading a material can give, where composing
/// its sources gives `sources`: the sources are composed, and `compile` can
/// answer them with `program`.
pub open spec fn load_gives<P, F: Fn(&str, &str) -> Result<P, String>>(
    compile: F,
    sources: Result<(Seq<char>, Seq<char>), ProgramErrorView>,
    program: P,
) -> bool {
    sources matches Ok(texts) && compiles_to(compile, texts.0, texts.1, Ok::<P, Seq<char>>(program))
}

/// Whether `error` is how loading a material ends badly, where composing
/// its sources gives `sources`: the failure of the sources, or else a
/// message with which `compile` can reject them.
pub open spec fn load_fails_with<P, F: Fn(&str, &str) -> Result<P, String>>(
    compile: F,
    sources: Result<(Seq<char>, Seq<char>), ProgramErrorView>,
    error: ProgramErrorView,
) -> bool {
    match sources {
        Err(failure) => error == failure,
        Ok(texts) => error matches ProgramErrorView::CompileFailed {
            message,
            vertex_source,
            fragment_source,
        } && vertex_source == texts.0 && fragment_source == texts.1 && compiles_to(
            compile,
            texts.0,
            texts.1,
            Err::<P, Seq<char>>(message),
        ),
    }
}

/// The program of the material `material_name`: its two sources are
/// composed and handed to `compile`. It fails where the sources cannot be
/// composed, with their failure, and where `compile` rejects them, with its
/// message and both sources.
pub fn load_program<P, F: Fn(&str, &str) -> Result<P, String>>(
    compile: &F,
    materials_directory: &VirtualDir,
    chunks_cache: &mut ChunksCache,
    material_name: &str,
    glsl_version: &str,
) -> (r: Result<P, ProgramError>)
    requires
        old(chunks_cache).well_formed(),
        forall|vertex_source: &str, fragment_source: &str|
            call_requires(*compile, (vertex_source, fragment_source)),
    ensures
        final(chunks_cache).well_formed(),
        final(chunks_cache).files() == old(chunks_cache).files(),
        final(chunks_cache).version() == old(chunks_cache).version(),
        final(chunks_cache).cached() == old(chunks_cache).cached().union(
            sources_chunks(
                materials_directory@.files,
                old(chunks_cache).files(),
                old(chunks_cache).version(),
                material_name@,
                glsl_version@,
            ),
        ),
        match r {
            Ok(program) => load_gives(
                *compile,
                program_sources(
                    materials_directory@.files,
                    old(chunks_cache).files(),
                    old(chunks_cache).version(),
                    material_name@,
                    glsl_version@,
                ),
                program,
            ),
            Err(error) => load_fails_with(
                *compile,
                program_sources(
                    materials_directory@.files,
                    old(chunks_cache).files(),
                    old(chunks_cache).version(),
                    material_name@,
                    glsl_version@,
                ),
                error@,
            ),
        },
{
    let (vertex_part, fragment_part) = match load_sources(
        materials_directory,
        chunks_cache,
        material_name,
        glsl_version,
    ) {
        Err(error) => {
            return Err(error);
        },
        Ok(sources) => sources,
    };
    let answer = compile(vertex_part.as_str(), fragment_part.as_str());
    compiled(answer, vertex_part, fragment_part)
}

/// `Rc::clone`: one more handle to the same value.
#[verifier::external_body]
fn share<P>(handle: &Rc<P>) -> (r: Rc<P>)
    ensures
        r == *handle,
{
    Rc::clone(handle)
}

/// The composed sources of the material `material`, where the materials
/// are those of `materials`, the chunks those of `chunks`, and the version
/// is `glsl_version`: as given in the version line, without its spaces in
/// the names of files.
pub open spec fn material_sources(
    materials: DirView,
    chunks: DirView,
    glsl_version: Seq<char>,
    material: Seq<char>,
) -> Result<(Seq<char>, Seq<char>), ProgramErrorView> {
    program_sources(
        materials.files,
        chunks.files,
        without_spaces(glsl_version),
        material,
        glsl_version,
    )
}

/// The names under which `programs` are kept, in their order.
spec fn names_of<P>(programs: Seq<(String, Rc<P>)>) -> Seq<Seq<char>> {
    Seq::new(programs.len(), |i: int| programs[i].0@)
}

/// The program kept under each name.
spec fn programs_of<P>(programs: Seq<(String, Rc<P>)>) -> Map<Seq<char>, P> {
    Map::new(
        |name: Seq<char>| names_of(programs).contains(name),
        |name: Seq<char>| *programs[names_of(programs).index_of(name)].1,
    )
}

/// The position at which `programs` keep a program under `name`.
fn position<P>(programs: &Vec<(String, Rc<P>)>, name: &String) -> (r: Option<usize>)
    ensures
        r is Some <==> names_of(programs@).contains(name@),
        r matches Some(i) ==> i < programs.len() && names_of(programs@)[i as int] == name@,
{
    let mut i: usize = 0;
    while i < programs.len()
        invariant
            i <= programs.len(),
            forall|j: int| 0 <= j < i ==> names_of(programs@)[j] != name@,
        decreases programs.len() - i,
    {
        if programs[i].0 == *name {
            assert(names_of(programs@)[i as int] == name@);
            return Some(i);
        }
        i += 1;
    }
    None
}

/// Keeps `program` under `name`, in place of the one that was kept under
/// it, if any.
fn keep<P>(programs: &mut Vec<(String, Rc<P>)>, name: String, program: Rc<P>)
    requires
        names_of(old(programs)@).no_duplicates(),
    ensures
        names_of(final(programs)@).no_duplicates(),
        programs_of(final(programs)@) == programs_of(old(programs)@).insert(name@, *program),
{
    let ghost before = names_of(programs@);
    let ghost kept = programs_of(programs@);
    match position(programs, &name) {
        Some(i) => {
            programs[i] = (name, program);
            let ghost after = names_of(programs@);
            assert(after =~= before);
            assert forall|other: Seq<char>| programs_of(programs@).dom().contains(other) implies #[trigger] programs_of(
                programs@,
            )[other] == kept.insert(name@, *program)[other] by {
                let j = after.index_of(other);
                assert(after[j] == other);
                if other != name@ {
                    assert(programs[j] == old(programs)[j]);
                }
            }
            assert(programs_of(programs@) =~= kept.insert(name@, *program));
        },
        None => {
            programs.push((name, program));
            let ghost after = names_of(programs@);
            assert(after =~= before.push(name@));
            assert forall|other: Seq<char>| #[trigger]
                after.contains(other) <==> before.contains(other) || other == name@ by {
                if before.contains(other) {
                    let j = before.index_of(other);
                    assert(after[j] == other);
                }
                assert(after[before.len() as int] == name@);
            }
            assert forall|other: Seq<char>| programs_of(programs@).dom().contains(other) implies #[trigger] programs_of(
                programs@,
            )[other] == kept.insert(name@, *program)[other] by {
                let j = after.index_of(other);
                assert(after[j] == other);
                if other != name@ {
                    assert(before[j] == other);
                    assert(before[before.index_of(other)] == other);
                    assert(programs[j] == old(programs)[j]);
                }
            }
            assert(programs_of(programs@) =~= kept.insert(name@, *program));
        },
    }
}

/// The programs of the materials of one tree, by the material's name. It
/// is built once and never changed.
pub struct ProgramsCache<P> {
    // The programs by name, each name once. A vector, and no hash map: vstd
    // says nothing of a map whose keys are strings.
    programs: Vec<(String, Rc<P>)>,
}

impl<P> View for ProgramsCache<P> {
    type V = Map<Seq<char>, P>;

    /// The program of each material, by the material's name.
    closed spec fn view(&self) -> Map<Seq<char>, P> {
        programs_of(self.programs@)
    }
}

impl<P> ProgramsCache<P> {
    /// The names of the materials, in the order in which they were first
    /// loaded.
    pub closed spec fn names(&self) -> Seq<Seq<char>> {
        names_of(self.programs@)
    }

    #[verifier::type_invariant]
    spec fn no_name_twice(&self) -> bool {
        names_of(self.programs@).no_duplicates()
    }

    /// The names are the names of the programs.
    pub proof fn lemma_names(&self)
        ensures
            self.names().to_set() == self@.dom(),
    {
        assert(self.names().to_set() =~= self@.dom());
    }

    /// The programs of all the materials of `material_directory`: each
    /// directory at its root is a material, named as the directory. The
    /// sources of each are composed from its files and from the chunks of
    /// `chunks_directory`, and handed to `compile`. The build ends on the
    /// first material that fails, with its failure: either every material
    /// has a program, or there is no catalog.
    pub fn new<F: Fn(&str, &str) -> Result<P, String>>(
        compile: F,
        glsl_version: &str,
        chunks_directory: &VirtualDir,
        material_directory: &VirtualDir,
    ) -> (r: Result<ProgramsCache<P>, ProgramError>)
        requires
            forall|vertex_source: &str, fragment_source: &str|
                call_requires(compile, (vertex_source, fragment_source)),
        ensures
            match r {
                Ok(cache) => {
                    &&& cache.names().no_duplicates()
                    &&& cache@.dom() == material_directory@.dirs.to_set()
                    &&& forall|name: Seq<char>| #[trigger]
                        cache@.dom().contains(name) ==> load_gives(
                            compile,
                            material_sources(
                                material_directory@,
                                chunks_directory@,
                                glsl_version@,
                                name,
                            ),
                            cache@[name],
                        )
                },
                Err(error) => exists|k: int|
                    {
                        &&& 0 <= k < material_directory@.dirs.len()
                        &&& forall|j: int|
                            0 <= j < k ==> (#[trigger] material_sources(
                                material_directory@,
                                chunks_directory@,
                                glsl_version@,
                                material_directory@.dirs[j],
                            )) is Ok
                        &&& load_fails_with(
                            compile,
                            #[trigger] material_sources(
                                material_directory@,
                                chunks_directory@,
                                glsl_version@,
                                material_directory@.dirs[k],
                            ),
                            error@,
                        )
                    },
            },
    {
        let mut chunks_cache = ChunksCache::new(chunks_directory, glsl_version);
        let mut programs: Vec<(String, Rc<P>)> = Vec::new();
        let ghost dirs = material_directory@.dirs;
        assert(names_of(programs@) =~= Seq::<Seq<char>>::empty());
        assert(programs_of(programs@).dom() =~= dirs.take(0).to_set());
        let mut i: usize = 0;
        while i < material_directory.dirs.len()
            invariant
                i <= material_directory.dirs.len(),
                dirs == material_directory@.dirs,
                forall|vertex_source: &str, fragment_source: &str|
                    call_requires(compile, (vertex_source, fragment_source)),
                chunks_cache.well_formed(),
                chunks_cache.files() == chunks_directory@.files,
                chunks_cache.version() == without_spaces(glsl_version@),
                names_of(programs@).no_duplicates(),
                programs_of(programs@).dom() == dirs.take(i as int).to_set(),
                forall|name: Seq<char>| #[trigger]
                    programs_of(programs@).dom().contains(name) ==> load_gives(
                        compile,
                        material_sources(
                            material_directory@,
                            chunks_directory@,
                            glsl_version@,
                            name,
                        ),
                        programs_of(programs@)[name],
                    ),
                forall|j: int|
                    0 <= j < i ==> (#[trigger] material_sources(
                        material_directory@,
                        chunks_directory@,
                        glsl_version@,
                        dirs[j],
                    )) is Ok,
            decreases material_directory.dirs.len() - i,
        {
            let program_name = &material_directory.dirs[i];
            assert(program_name@ == dirs[i as int]);
            let program = match load_program(
                &compile,
                material_directory,
                &mut chunks_cache,
                program_name.as_str(),
                glsl_version,
            ) {
                Err(error) => {
                    proof {
                        let k = i as int;
                        assert(load_fails_with(
                            compile,
                            material_sources(
                                material_directory@,
                                chunks_directory@,
                                glsl_version@,
                                material_directory@.dirs[k],
                            ),
                            error@,
                        ));
                    }
                    return Err(error);
                },
                Ok(program) => program,
            };
            let ghost before = programs_of(programs@);
            keep(&mut programs, program_name.clone(), Rc::new(program));
            proof {
                assert(programs_of(programs@).dom() =~= before.dom().insert(dirs[i as int]));
                assert(dirs.take(i + 1) =~= dirs.take(i as int).push(dirs[i as int]));
                dirs.take(i as int).lemma_push_to_set_commute(dirs[i as int]);
                assert(programs_of(programs@).dom() =~= dirs.take(i + 1).to_set());
            }
            i += 1;
        }
        assert(dirs.take(material_directory.dirs.len() as int) =~= dirs);
        Ok(ProgramsCache { programs })
    }

    /// The names of the materials that have a program.
    pub fn get_program_names(&self) -> (r: Vec<&String>)
        ensures
            r.deep_view() == self.names(),
            r.deep_view().no_duplicates(),
    {
        proof {
            use_type_invariant(self);
        }
        let mut names: Vec<&String> = Vec::new();
        let mut i: usize = 0;
        while i < self.programs.len()
            invariant
                i <= self.programs.len(),
                names.deep_view() == self.names().take(i as int),
            decreases self.programs.len() - i,
        {
            let ghost before = names.deep_view();
            names.push(&self.programs[i].0);
            assert(names.deep_view() =~= before.push(self.names()[i as int]));
            assert(names.deep_view() =~= self.names().take(i + 1));
            i += 1;
        }
        assert(self.names().take(self.programs.len() as int) =~= self.names());
        names
    }

    /// A handle to the program of the material `name`, or `None` where no
    /// material has that name.
    pub fn get_program(&self, name: &str) -> (r: Option<Rc<P>>)
        ensures
            match r {
                Some(program) => self@.contains_key(name@) && *program == self@[name@],
                None => !self@.contains_key(name@),
            },
    {
        proof {
            use_type_invariant(self);
        }
        match position(&self.programs, &String::from_str(name)) {
            Some(i) => {
                assert(self.names()[self.names().index_of(name@)] == name@);
                Some(share(&self.programs[i].1))
            },
            None => None,
        }
    }
}

} // verus!
