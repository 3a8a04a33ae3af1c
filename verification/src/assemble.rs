//! The source of one shading stage: a version line, the bodies of the
//! chunks that the stage requires, by category, and the stage's own body.

use vstd::prelude::*;
use vstd::seq_lib::{lemma_multiset_commutative, to_multiset_build};
use vstd::string::StringExecFns;
use crate::chunks::{chunk_of, lemma_with_file_push, with_file, ChunksCache};
use crate::directive::{ShaderFile, ShaderFileView};
use crate::error::{ProgramError, ProgramErrorView};
use crate::ordered_set::{insert_last, set_insert, set_items, set_new, set_to_vec};
use crate::resolve::{
    collect_requirements, lemma_insert_last, lemma_resolve_no_duplicates, resolve, searched,
};
use crate::text::has_prefix;
use crate::tree::FileView;

verus! {

/// The categories of chunks, in the order in which they are written out.
#[derive(Debug, Clone, Copy, PartialEq, Eq, Structural)]
pub enum Category {
    /// Chunks whose identifier begins with `attributes/`.
    Attributes,
    /// Chunks whose identifier begins with `uniforms/`.
    Uniforms,
    /// Chunks whose identifier begins with `structs/`.
    Structs,
    /// Every other chunk.
    Other,
}

/// The category of the chunk `chunk`, by the beginning of its identifier.
pub open spec fn category_of(chunk: Seq<char>) -> Category {
    if "attributes/"@.is_prefix_of(chunk) {
        Category::Attributes
    } else if "uniforms/"@.is_prefix_of(chunk) {
        Category::Uniforms
    } else if "structs/"@.is_prefix_of(chunk) {
        Category::Structs
    } else {
        Category::Other
    }
}

/// The test that the chunks of `category` pass.
pub open spec fn in_category(category: Category) -> spec_fn(Seq<char>) -> bool {
    |chunk: Seq<char>| category_of(chunk) == category
}

/// `chunks` in the order in which they are written out: attributes, then
/// uniforms, then structs, then the others, and within each of the four as
/// they stand in `chunks`.
pub open spec fn render_order(chunks: Seq<Seq<char>>) -> Seq<Seq<char>> {
    chunks.filter(in_category(Category::Attributes)) + chunks.filter(
        in_category(Category::Uniforms),
    ) + chunks.filter(in_category(Category::Structs)) + chunks.filter(
        in_category(Category::Other),
    )
}

/// Ordering neither drops a chunk nor repeats one: the ordered chunks are
/// the chunks, each as often as before.
pub proof fn lemma_render_order_permutes(chunks: Seq<Seq<char>>)
    ensures
        render_order(chunks).to_multiset() == chunks.to_multiset(),
    decreases chunks.len(),
{
    let attributes = in_category(Category::Attributes);
    let uniforms = in_category(Category::Uniforms);
    let structs = in_category(Category::Structs);
    let other = in_category(Category::Other);
    if chunks.len() == 0 {
        reveal(Seq::filter);
        assert(render_order(chunks) =~= chunks);
    } else {
        let init = chunks.drop_last();
        let last = chunks.last();
        lemma_render_order_permutes(init);
        assert(chunks =~= init.push(last));
        init.lemma_filter_push(last, attributes);
        init.lemma_filter_push(last, uniforms);
        init.lemma_filter_push(last, structs);
        init.lemma_filter_push(last, other);
        let a = init.filter(attributes);
        let u = init.filter(uniforms);
        let t = init.filter(structs);
        let o = init.filter(other);
        to_multiset_build(init, last);
        lemma_multiset_commutative(a, u);
        lemma_multiset_commutative(a + u, t);
        lemma_multiset_commutative(a + u + t, o);
        match category_of(last) {
            Category::Attributes => {
                to_multiset_build(a, last);
                lemma_multiset_commutative(a.push(last), u);
                lemma_multiset_commutative(a.push(last) + u, t);
                lemma_multiset_commutative(a.push(last) + u + t, o);
            },
            Category::Uniforms => {
                to_multiset_build(u, last);
                lemma_multiset_commutative(a, u.push(last));
                lemma_multiset_commutative(a + u.push(last), t);
                lemma_multiset_commutative(a + u.push(last) + t, o);
            },
            Category::Structs => {
                to_multiset_build(t, last);
                lemma_multiset_commutative(a + u, t.push(last));
                lemma_multiset_commutative(a + u + t.push(last), o);
            },
            Category::Other => {
                to_multiset_build(o, last);
                lemma_multiset_commutative(a + u + t, o.push(last));
            },
        }
        assert(render_order(chunks).to_multiset() =~= chunks.to_multiset());
    }
}

/// The bodies of `chunks`, one after the other, two line feeds behind each;
/// or the first of them that no file holds.
pub open spec fn chunk_bodies(
    files: Seq<FileView>,
    version: Seq<char>,
    chunks: Seq<Seq<char>>,
) -> Result<Seq<char>, Seq<char>>
    decreases chunks.len(),
{
    if chunks.len() == 0 {
        Ok(Seq::empty())
    } else {
        match chunk_bodies(files, version, chunks.drop_last()) {
            Err(chunk) => Err(chunk),
            Ok(text) => match chunk_of(files, version, chunks.last()) {
                None => Err(chunks.last()),
                Some(chunk) => Ok(text + chunk.rest + "\n\n"@),
            },
        }
    }
}

/// The chunks whose bodies are asked for: all of `chunks`, where a file
/// holds each, or else those up to the first that no file holds, that one
/// included.
pub open spec fn asked_bodies(
    files: Seq<FileView>,
    version: Seq<char>,
    chunks: Seq<Seq<char>>,
) -> Seq<Seq<char>>
    decreases chunks.len(),
{
    if chunks.len() == 0 {
        Seq::empty()
    } else {
        match chunk_bodies(files, version, chunks.drop_last()) {
            Err(_) => asked_bodies(files, version, chunks.drop_last()),
            Ok(_) => asked_bodies(files, version, chunks.drop_last()).push(chunks.last()),
        }
    }
}

/// Where a file holds each of `chunks`, the bodies of all of them are
/// asked for, and the chunks that a file holds are all of them.
pub proof fn lemma_asked_bodies_all(
    files: Seq<FileView>,
    version: Seq<char>,
    chunks: Seq<Seq<char>>,
)
    requires
        chunk_bodies(files, version, chunks) is Ok,
    ensures
        asked_bodies(files, version, chunks) == chunks,
        with_file(files, version, chunks) == chunks.to_set(),
    decreases chunks.len(),
{
    if chunks.len() == 0 {
        assert(with_file(files, version, chunks) =~= chunks.to_set());
    } else {
        let init = chunks.drop_last();
        lemma_asked_bodies_all(files, version, init);
        assert(chunks =~= init.push(chunks.last()));
        lemma_with_file_push(files, version, init, chunks.last());
        init.lemma_push_to_set_commute(chunks.last());
    }
}

/// The set of requirements that a stage begins with: the defaults,
/// inserted one after the other.
pub open spec fn with_defaults(defaults: Seq<Seq<char>>) -> Seq<Seq<char>>
    decreases defaults.len(),
{
    if defaults.len() == 0 {
        Seq::empty()
    } else {
        insert_last(with_defaults(defaults.drop_last()), defaults.last())
    }
}

/// The chunks that a stage is made of, in the order in which they are
/// found: the defaults, then what `required` leads to. The defaults are
/// taken as found from the start, so that what they require themselves is
/// not followed.
pub open spec fn required_chunks(
    files: Seq<FileView>,
    version: Seq<char>,
    defaults: Seq<Seq<char>>,
    required: Seq<Seq<char>>,
) -> Result<Seq<Seq<char>>, Seq<char>> {
    resolve(files, version, with_defaults(defaults), required)
}

/// The defaults, once inserted, all differ; and so do the chunks that a
/// stage is made of, whatever the files hold: no chunk is found twice.
pub proof fn lemma_required_chunks_no_duplicates(
    files: Seq<FileView>,
    version: Seq<char>,
    defaults: Seq<Seq<char>>,
    required: Seq<Seq<char>>,
)
    ensures
        with_defaults(defaults).no_duplicates(),
        required_chunks(files, version, defaults, required) matches Ok(found)
            ==> found.no_duplicates(),
    decreases defaults.len(),
{
    if defaults.len() > 0 {
        lemma_required_chunks_no_duplicates(files, version, defaults.drop_last(), required);
        lemma_insert_last(with_defaults(defaults.drop_last()), defaults.last());
    }
    lemma_resolve_no_duplicates(files, version, with_defaults(defaults), required);
}

/// The chunks that are got from the store while the source of a stage is
/// composed: those that are found while the requirements are followed and
/// that a file holds, and, where all of them are found, those whose bodies
/// are then asked for and that a file holds.
pub open spec fn part_chunks(
    files: Seq<FileView>,
    version: Seq<char>,
    defaults: Seq<Seq<char>>,
    required: Seq<Seq<char>>,
) -> Set<Seq<char>> {
    let start = with_defaults(defaults);
    let collected = with_file(
        files,
        version,
        searched(files, version, start, required).skip(start.len() as int),
    );
    match resolve(files, version, start, required) {
        Err(_) => collected,
        Ok(found) => collected.union(
            with_file(files, version, asked_bodies(files, version, render_order(found))),
        ),
    }
}

/// The source of a stage, or the chunk that is missing: the line
/// `#version` with `glsl_version` as given, an empty line, the bodies of
/// the required chunks, and the body of the stage's own source.
pub open spec fn program_part(
    files: Seq<FileView>,
    version: Seq<char>,
    defaults: Seq<Seq<char>>,
    shader_file: ShaderFileView,
    glsl_version: Seq<char>,
) -> Result<Seq<char>, Seq<char>> {
    match required_chunks(files, version, defaults, shader_file.required) {
        Err(chunk) => Err(chunk),
        Ok(found) => match chunk_bodies(files, version, render_order(found)) {
            Err(chunk) => Err(chunk),
            Ok(bodies) => Ok("#version "@ + glsl_version + "\n\n"@ + bodies + shader_file.rest),
        },
    }
}

/// The category of a chunk.
pub fn category(chunk: &str) -> (r: Category)
    ensures
        r == category_of(chunk@),
{
    if has_prefix(chunk, "attributes/") {
        Category::Attributes
    } else if has_prefix(chunk, "uniforms/") {
        Category::Uniforms
    } else if has_prefix(chunk, "structs/") {
        Category::Structs
    } else {
        Category::Other
    }
}

/// Puts behind `ordered` the chunks of one category, as they stand in
/// `chunks`.
fn append_category(ordered: &mut Vec<String>, chunks: &Vec<String>, wanted: Category)
    ensures
        final(ordered).deep_view() == old(ordered).deep_view() + chunks.deep_view().filter(
            in_category(wanted),
        ),
{
    let ghost all = chunks.deep_view();
    let mut i: usize = 0;
    proof {
        reveal(Seq::filter);
        assert(all.take(0).filter(in_category(wanted)) =~= Seq::<Seq<char>>::empty());
        assert(ordered.deep_view() + Seq::<Seq<char>>::empty() =~= ordered.deep_view());
    }
    while i < chunks.len()
        invariant
            i <= chunks.len(),
            all == chunks.deep_view(),
            ordered.deep_view() == old(ordered).deep_view() + all.take(i as int).filter(
                in_category(wanted),
            ),
        decreases chunks.len() - i,
    {
        proof {
            assert(all.take(i + 1) =~= all.take(i as int).push(all[i as int]));
            all.take(i as int).lemma_filter_push(all[i as int], in_category(wanted));
        }
        if category(chunks[i].as_str()) == wanted {
            let ghost before = ordered.deep_view();
            ordered.push(chunks[i].clone());
            assert(ordered.deep_view() =~= before.push(all[i as int]));
            assert(ordered.deep_view() =~= old(ordered).deep_view() + all.take(i + 1).filter(
                in_category(wanted),
            ));
        }
        i += 1;
    }
    assert(all.take(chunks.len() as int) =~= all);
}

/// `chunks` in the order in which they are written out.
pub fn in_render_order(chunks: &Vec<String>) -> (r: Vec<String>)
    ensures
        r.deep_view() == render_order(chunks.deep_view()),
{
    let mut ordered: Vec<String> = Vec::new();
    assert(ordered.deep_view() =~= Seq::<Seq<char>>::empty());
    append_category(&mut ordered, chunks, Category::Attributes);
    append_category(&mut ordered, chunks, Category::Uniforms);
    append_category(&mut ordered, chunks, Category::Structs);
    append_category(&mut ordered, chunks, Category::Other);
    assert(ordered.deep_view() =~= render_order(chunks.deep_view()));
    ordered
}

/// Puts behind `program` the body of each of `chunks`, with two line feeds
/// behind each body. It fails on the first chunk that no file holds.
pub fn append_chunks(chunks_cache: &mut ChunksCache, program: &mut String, chunks: &Vec<String>) -> (r:
    Result<(), ProgramError>)
    requires
        old(chunks_cache).well_formed(),
    ensures
        final(chunks_cache).well_formed(),
        final(chunks_cache).files() == old(chunks_cache).files(),
        final(chunks_cache).version() == old(chunks_cache).version(),
        match chunk_bodies(
            old(chunks_cache).files(),
            old(chunks_cache).version(),
            chunks.deep_view(),
        ) {
            Ok(text) => r is Ok && final(program)@ == old(program)@ + text,
            Err(chunk) => r matches Err(error) && error@ == (ProgramErrorView::MissingChunk {
                chunk,
            }),
        },
        r is Ok ==> final(chunks_cache).cached() == old(chunks_cache).cached().union(
            chunks.deep_view().to_set(),
        ),
        final(chunks_cache).cached() == old(chunks_cache).cached().union(
            with_file(
                old(chunks_cache).files(),
                old(chunks_cache).version(),
                asked_bodies(
                    old(chunks_cache).files(),
                    old(chunks_cache).version(),
                    chunks.deep_view(),
                ),
            ),
        ),
{
    let ghost files = chunks_cache.files();
    let ghost version = chunks_cache.version();
    let ghost all = chunks.deep_view();
    let ghost kept = chunks_cache.cached();
    let mut i: usize = 0;
    assert(program@ + Seq::<char>::empty() =~= program@);
    assert(kept.union(with_file(files, version, all.take(0))) =~= kept);
    while i < chunks.len()
        invariant
            i <= chunks.len(),
            all == chunks.deep_view(),
            chunks_cache.well_formed(),
            chunks_cache.files() == files,
            chunks_cache.version() == version,
            files == old(chunks_cache).files(),
            version == old(chunks_cache).version(),
            kept == old(chunks_cache).cached(),
            chunks_cache.cached() == kept.union(with_file(files, version, all.take(i as int))),
            chunk_bodies(files, version, all.take(i as int)) matches Ok(text) && program@ == old(
                program,
            )@ + text,
        decreases chunks.len() - i,
    {
        proof {
            assert(all.take(i + 1).drop_last() =~= all.take(i as int));
            assert(all.take(i + 1).last() == all[i as int]);
            assert(all.take(i + 1) =~= all.take(i as int).push(all[i as int]));
            lemma_with_file_push(files, version, all.take(i as int), all[i as int]);
            lemma_asked_bodies_all(files, version, all.take(i as int));
        }
        let ghost before = program@;
        match chunks_cache.get_chunk(chunks[i].clone()) {
            Err(error) => {
                proof {
                    lemma_chunk_bodies_fails(files, version, all, i + 1);
                }
                return Err(error);
            },
            Ok(chunk_file) => {
                program.append(chunk_file.rest.as_str());
                program.append("\n\n");
                assert(program@ =~= old(program)@ + chunk_bodies(
                    files,
                    version,
                    all.take(i + 1),
                )->Ok_0);
            },
        }
        i += 1;
    }
    proof {
        assert(all.take(chunks.len() as int) =~= all);
        lemma_asked_bodies_all(files, version, all);
    }
    Ok(())
}

/// Where the bodies of the first `n` chunks fail on a chunk, those of all
/// chunks fail on it, and no body behind it is asked for.
proof fn lemma_chunk_bodies_fails(
    files: Seq<FileView>,
    version: Seq<char>,
    chunks: Seq<Seq<char>>,
    n: int,
)
    requires
        0 <= n <= chunks.len(),
        chunk_bodies(files, version, chunks.take(n)) is Err,
    ensures
        chunk_bodies(files, version, chunks) == chunk_bodies(files, version, chunks.take(n)),
        asked_bodies(files, version, chunks) == asked_bodies(files, version, chunks.take(n)),
    decreases chunks.len() - n,
{
    if n < chunks.len() {
        assert(chunks.take(n + 1).drop_last() =~= chunks.take(n));
        lemma_chunk_bodies_fails(files, version, chunks, n + 1);
    } else {
        assert(chunks.take(n) =~= chunks);
    }
}

/// The chunks that a stage is made of, each once, in the order in which
/// they are found: the defaults as given, then every chunk that
/// `shader_file` requires, directly or through another chunk, when it is
/// first met. A default that stands twice stands once, at its last place.
/// It fails on the first requirement met whose chunk no file holds; the
/// defaults are not looked for here.
pub fn resolve_requirements(
    chunks_cache: &mut ChunksCache,
    default_requirements: &[&str],
    shader_file: &ShaderFile,
) -> (r: Result<Vec<String>, ProgramError>)
    requires
        old(chunks_cache).well_formed(),
    ensures
        final(chunks_cache).well_formed(),
        final(chunks_cache).files() == old(chunks_cache).files(),
        final(chunks_cache).version() == old(chunks_cache).version(),
        final(chunks_cache).cached() == old(chunks_cache).cached().union(
            with_file(
                old(chunks_cache).files(),
                old(chunks_cache).version(),
                searched(
                    old(chunks_cache).files(),
                    old(chunks_cache).version(),
                    with_defaults(default_requirements.deep_view()),
                    shader_file@.required,
                ).skip(with_defaults(default_requirements.deep_view()).len() as int),
            ),
        ),
        match required_chunks(
            old(chunks_cache).files(),
            old(chunks_cache).version(),
            default_requirements.deep_view(),
            shader_file@.required,
        ) {
            Ok(found) => r matches Ok(chunks) && chunks.deep_view() == found
                && found.no_duplicates(),
            Err(chunk) => r matches Err(error) && error@ == (ProgramErrorView::MissingChunk {
                chunk,
            }),
        },
{
    let ghost defaults = default_requirements.deep_view();
    let mut requirements = set_new();
    let mut i: usize = 0;
    assert(defaults.take(0) =~= Seq::<Seq<char>>::empty());
    while i < default_requirements.len()
        invariant
            i <= default_requirements.len(),
            defaults == default_requirements.deep_view(),
            set_items(requirements) == with_defaults(defaults.take(i as int)),
        decreases default_requirements.len() - i,
    {
        proof {
            assert(defaults.take(i + 1).drop_last() =~= defaults.take(i as int));
            assert(defaults.take(i + 1).last() == default_requirements[i as int]@);
        }
        set_insert(&mut requirements, String::from_str(default_requirements[i]));
        i += 1;
    }
    proof {
        assert(defaults.take(default_requirements.len() as int) =~= defaults);
        lemma_required_chunks_no_duplicates(
            chunks_cache.files(),
            chunks_cache.version(),
            defaults,
            shader_file@.required,
        );
    }
    match collect_requirements(chunks_cache, &mut requirements, shader_file) {
        Err(error) => Err(error),
        Ok(()) => Ok(set_to_vec(&requirements)),
    }
}

/// The source of one stage: the version line, the bodies of the chunks
/// that the defaults and `shader_file` require, by category, and the body
/// of `shader_file`. It fails on the first chunk that no file holds: one
/// met while the requirements are followed, or else one of the defaults
/// when the bodies are written out.
pub fn create_program_part(
    chunks_cache: &mut ChunksCache,
    default_requirements: &[&str],
    shader_file: &ShaderFile,
    glsl_version: &str,
) -> (r: Result<String, ProgramError>)
    requires
        old(chunks_cache).well_formed(),
    ensures
        final(chunks_cache).well_formed(),
        final(chunks_cache).files() == old(chunks_cache).files(),
        final(chunks_cache).version() == old(chunks_cache).version(),
        final(chunks_cache).cached() == old(chunks_cache).cached().union(
            part_chunks(
                old(chunks_cache).files(),
                old(chunks_cache).version(),
                default_requirements.deep_view(),
                shader_file@.required,
            ),
        ),
        match program_part(
            old(chunks_cache).files(),
            old(chunks_cache).version(),
            default_requirements.deep_view(),
            shader_file@,
            glsl_version@,
        ) {
            Ok(text) => r matches Ok(program) && program@ == text,
            Err(chunk) => r matches Err(error) && error@ == (ProgramErrorView::MissingChunk {
                chunk,
            }),
        },
{
    let ghost defaults = default_requirements.deep_view();
    let ghost kept = chunks_cache.cached();
    let required = match resolve_requirements(chunks_cache, default_requirements, shader_file) {
        Err(error) => {
            return Err(error);
        },
        Ok(required) => required,
    };
    let mut program = String::from_str("#version ");
    program.append(glsl_version);
    program.append("\n\n");
    let ordered = in_render_order(&required);
    match append_chunks(chunks_cache, &mut program, &ordered) {
        Err(error) => {
            return Err(error);
        },
        Ok(()) => {},
    }
    program.append(shader_file.rest.as_str());
    assert(chunks_cache.cached() =~= kept.union(
        part_chunks(
            chunks_cache.files(),
            chunks_cache.version(),
            defaults,
            shader_file@.required,
        ),
    ));
    Ok(program)
}

} // verus!
