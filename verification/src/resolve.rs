//! The requirements of a source, followed through the chunks: every chunk
//! that is required, directly or through another chunk, once, in the order
//! in which a search that goes deep first meets them.

use vstd::prelude::*;
use vstd::seq_lib::seq_to_set_is_finite;
use vstd::set_lib::lemma_len_subset;
use linked_hash_set::LinkedHashSet;
use std::collections::hash_map::RandomState;
use crate::chunks::{
    chunk_file, chunk_of, chunk_paths, lemma_with_file_push, with_file, ChunksCache,
};
use crate::directive::{requirements, ShaderFile};
use crate::error::{ProgramError, ProgramErrorView};
use crate::ordered_set::{insert_last, is_not, set_contains, set_insert, set_items};
use crate::sequences::lemma_filter_items;
use crate::tree::{lemma_find_first_is_member, FileView};

verus! {

/// Every identifier that some file among `files` requires.
pub open spec fn mentioned(files: Seq<FileView>) -> Seq<Seq<char>>
    decreases files.len(),
{
    if files.len() == 0 {
        Seq::empty()
    } else {
        mentioned(files.drop_last()) + requirements(files.last().contents)
    }
}

/// How many identifiers can still be found: those that a file or `pending`
/// names and that are not among `found`.
pub open spec fn unexplored(
    files: Seq<FileView>,
    found: Seq<Seq<char>>,
    pending: Seq<Seq<char>>,
) -> nat {
    (mentioned(files) + pending).to_set().difference(found.to_set()).len()
}

/// The identifiers found when the requirements `pending` are followed, one
/// after the other, from the identifiers `found` that were found before.
/// A requirement that is found already is passed over. Any other is found
/// now, and what its chunk requires is followed before the requirements
/// that stand behind it. The first one whose chunk no file holds ends the
/// search, and is the error.
pub open spec fn resolve(
    files: Seq<FileView>,
    version: Seq<char>,
    found: Seq<Seq<char>>,
    pending: Seq<Seq<char>>,
) -> Result<Seq<Seq<char>>, Seq<char>>
    decreases unexplored(files, found, pending), pending.len(),
    via resolve_decreases
{
    if pending.len() == 0 {
        Ok(found)
    } else if found.contains(pending[0]) {
        resolve(files, version, found, pending.drop_first())
    } else {
        match chunk_of(files, version, pending[0]) {
            None => Err(pending[0]),
            Some(chunk) => resolve(
                files,
                version,
                found.push(pending[0]),
                chunk.required + pending.drop_first(),
            ),
        }
    }
}

/// The identifiers that are found when the search ends, well or not: those
/// that `resolve` gives, or, where a chunk is missing, those found up to
/// the missing one, which is the last of them.
pub open spec fn searched(
    files: Seq<FileView>,
    version: Seq<char>,
    found: Seq<Seq<char>>,
    pending: Seq<Seq<char>>,
) -> Seq<Seq<char>>
    decreases unexplored(files, found, pending), pending.len(),
    via searched_decreases
{
    if pending.len() == 0 {
        found
    } else if found.contains(pending[0]) {
        searched(files, version, found, pending.drop_first())
    } else {
        match chunk_of(files, version, pending[0]) {
            None => found.push(pending[0]),
            Some(chunk) => searched(
                files,
                version,
                found.push(pending[0]),
                chunk.required + pending.drop_first(),
            ),
        }
    }
}

#[via_fn]
proof fn searched_decreases(
    files: Seq<FileView>,
    version: Seq<char>,
    found: Seq<Seq<char>>,
    pending: Seq<Seq<char>>,
) {
    if pending.len() > 0 {
        if found.contains(pending[0]) {
            lemma_unexplored_after_skip(files, found, pending);
        } else if chunk_of(files, version, pending[0]) is Some {
            lemma_unexplored_after_push(files, version, found, pending);
        }
    }
}

/// What is found when the search ends begins with what was found before.
/// Where the search ends well, it is what `resolve` gives; where it does
/// not, its last identifier is the missing chunk, and every one between has
/// a file.
pub proof fn lemma_searched(
    files: Seq<FileView>,
    version: Seq<char>,
    found: Seq<Seq<char>>,
    pending: Seq<Seq<char>>,
)
    ensures
        found.is_prefix_of(searched(files, version, found, pending)),
        match resolve(files, version, found, pending) {
            Ok(all) => searched(files, version, found, pending) == all,
            Err(chunk) => {
                let all = searched(files, version, found, pending);
                &&& all.len() > found.len()
                &&& all.last() == chunk
                &&& chunk_of(files, version, chunk) is None
                &&& forall|i: int|
                    found.len() <= i < all.len() - 1 ==> (#[trigger] chunk_of(
                        files,
                        version,
                        all[i],
                    )) is Some
            },
        },
    decreases unexplored(files, found, pending), pending.len(),
{
    let all = searched(files, version, found, pending);
    if pending.len() == 0 {
        assert(found.subrange(0, found.len() as int) =~= found);
    } else if found.contains(pending[0]) {
        lemma_unexplored_after_skip(files, found, pending);
        lemma_searched(files, version, found, pending.drop_first());
    } else {
        let more = found.push(pending[0]);
        match chunk_of(files, version, pending[0]) {
            None => {
                assert(found =~= more.subrange(0, found.len() as int));
            },
            Some(chunk) => {
                lemma_unexplored_after_push(files, version, found, pending);
                lemma_searched(files, version, more, chunk.required + pending.drop_first());
                assert(found =~= all.subrange(0, found.len() as int)) by {
                    assert forall|i: int| 0 <= i < found.len() implies found[i] == all[i] by {
                        assert(more[i] == all[i]);
                    }
                }
                assert(all[found.len() as int] == more[found.len() as int]);
            },
        }
    }
}

#[via_fn]
proof fn resolve_decreases(
    files: Seq<FileView>,
    version: Seq<char>,
    found: Seq<Seq<char>>,
    pending: Seq<Seq<char>>,
) {
    if pending.len() > 0 {
        if found.contains(pending[0]) {
            lemma_unexplored_after_skip(files, found, pending);
        } else if chunk_of(files, version, pending[0]) is Some {
            lemma_unexplored_after_push(files, version, found, pending);
        }
    }
}

/// What a file requires is mentioned by the files it is one of.
proof fn lemma_mentioned_contains(files: Seq<FileView>, file: FileView, chunk: Seq<char>)
    requires
        files.contains(file),
        requirements(file.contents).contains(chunk),
    ensures
        mentioned(files).contains(chunk),
    decreases files.len(),
{
    let last = requirements(files.last().contents);
    let before = mentioned(files.drop_last());
    if files.last() == file {
        let j = choose|j: int| 0 <= j < last.len() && last[j] == chunk;
        assert((before + last)[before.len() + j] == chunk);
    } else {
        let i = choose|i: int| 0 <= i < files.len() && files[i] == file;
        assert(files.drop_last()[i] == file);
        lemma_mentioned_contains(files.drop_last(), file, chunk);
        let j = choose|j: int| 0 <= j < before.len() && before[j] == chunk;
        assert((before + last)[j] == chunk);
    }
}

/// An item of a concatenation is an item of one of its two parts.
proof fn lemma_contains_add(a: Seq<Seq<char>>, b: Seq<Seq<char>>, x: Seq<char>)
    ensures
        (a + b).contains(x) <==> a.contains(x) || b.contains(x),
{
    if a.contains(x) {
        let i = choose|i: int| 0 <= i < a.len() && a[i] == x;
        assert((a + b)[i] == x);
    }
    if b.contains(x) {
        let i = choose|i: int| 0 <= i < b.len() && b[i] == x;
        assert((a + b)[a.len() + i] == x);
    }
    if (a + b).contains(x) {
        let i = choose|i: int| 0 <= i < (a + b).len() && (a + b)[i] == x;
        if i < a.len() {
            assert(a[i] == x);
        } else {
            assert(b[i - a.len()] == x);
        }
    }
}

/// Passing over a requirement leaves no more to find than before.
proof fn lemma_unexplored_after_skip(
    files: Seq<FileView>,
    found: Seq<Seq<char>>,
    pending: Seq<Seq<char>>,
)
    requires
        pending.len() > 0,
    ensures
        unexplored(files, found, pending.drop_first()) <= unexplored(files, found, pending),
{
    let big = (mentioned(files) + pending).to_set().difference(found.to_set());
    let small = (mentioned(files) + pending.drop_first()).to_set().difference(found.to_set());
    seq_to_set_is_finite(mentioned(files) + pending);
    assert forall|x: Seq<char>| small.contains(x) implies big.contains(x) by {
        lemma_contains_add(mentioned(files), pending.drop_first(), x);
        lemma_contains_add(mentioned(files), pending, x);
        if pending.drop_first().contains(x) {
            let i = choose|i: int| 0 <= i < pending.len() - 1 && pending.drop_first()[i] == x;
            assert(pending[i + 1] == x);
        }
    }
    lemma_len_subset(small, big);
}

/// Finding a new identifier, and following what its chunk requires, leaves
/// less to find than before.
proof fn lemma_unexplored_after_push(
    files: Seq<FileView>,
    version: Seq<char>,
    found: Seq<Seq<char>>,
    pending: Seq<Seq<char>>,
)
    requires
        pending.len() > 0,
        !found.contains(pending[0]),
        chunk_of(files, version, pending[0]) is Some,
    ensures
        unexplored(
            files,
            found.push(pending[0]),
            chunk_of(files, version, pending[0])->0.required + pending.drop_first(),
        ) < unexplored(files, found, pending),
{
    let chunk = pending[0];
    let file = chunk_file(files, version, chunk)->0;
    let required = requirements(file.contents);
    let next = required + pending.drop_first();
    let big = (mentioned(files) + pending).to_set().difference(found.to_set());
    let small = (mentioned(files) + next).to_set().difference(found.push(chunk).to_set());
    seq_to_set_is_finite(mentioned(files) + pending);
    lemma_find_first_is_member(files, chunk_paths(chunk, version));
    assert(pending[0] == chunk);
    lemma_contains_add(mentioned(files), pending, chunk);
    assert(big.contains(chunk));
    assert forall|x: Seq<char>| small.contains(x) implies big.remove(chunk).contains(x) by {
        lemma_contains_add(mentioned(files), next, x);
        lemma_contains_add(required, pending.drop_first(), x);
        lemma_contains_add(mentioned(files), pending, x);
        assert(found.push(chunk)[found.len() as int] == chunk);
        if found.contains(x) {
            let i = choose|i: int| 0 <= i < found.len() && found[i] == x;
            assert(found.push(chunk)[i] == x);
        }
        if required.contains(x) {
            lemma_mentioned_contains(files, file, x);
        }
        if pending.drop_first().contains(x) {
            let i = choose|i: int| 0 <= i < pending.len() - 1 && pending.drop_first()[i] == x;
            assert(pending[i + 1] == x);
        }
    }
    lemma_len_subset(small, big.remove(chunk));
}

/// Inserting into items that all differ gives items that all differ. An
/// item that was not there is put behind the others.
pub proof fn lemma_insert_last(items: Seq<Seq<char>>, value: Seq<char>)
    ensures
        !items.contains(value) ==> insert_last(items, value) == items.push(value),
        items.no_duplicates() ==> insert_last(items, value).no_duplicates(),
{
    let pred = is_not(value);
    lemma_filter_items(items, pred);
    if !items.contains(value) {
        assert forall|i: int| 0 <= i < items.len() implies pred(items[i]) by {}
    }
    if items.no_duplicates() {
        assert(!items.filter(pred).contains(value));
    }
}

/// No identifier is found twice: where the identifiers found before all
/// differ, those found in the end all differ.
pub proof fn lemma_resolve_no_duplicates(
    files: Seq<FileView>,
    version: Seq<char>,
    found: Seq<Seq<char>>,
    pending: Seq<Seq<char>>,
)
    requires
        found.no_duplicates(),
    ensures
        resolve(files, version, found, pending) matches Ok(all) ==> all.no_duplicates(),
    decreases unexplored(files, found, pending), pending.len(),
{
    if pending.len() > 0 {
        if found.contains(pending[0]) {
            lemma_unexplored_after_skip(files, found, pending);
            lemma_resolve_no_duplicates(files, version, found, pending.drop_first());
        } else if let Some(chunk) = chunk_of(files, version, pending[0]) {
            lemma_unexplored_after_push(files, version, found, pending);
            lemma_resolve_no_duplicates(
                files,
                version,
                found.push(pending[0]),
                chunk.required + pending.drop_first(),
            );
        }
    }
}

/// What is found is closed under requirement, and nothing else is found.
/// Where the search ends well: the identifiers found before stay in front,
/// in their order; every requirement in `pending` is found; every
/// identifier found now has a chunk, and all that its chunk requires is
/// found; and every identifier found now is one of `pending`, or required
/// by the chunk of one that was found now and before it.
pub proof fn lemma_resolve_closure(
    files: Seq<FileView>,
    version: Seq<char>,
    found: Seq<Seq<char>>,
    pending: Seq<Seq<char>>,
)
    requires
        resolve(files, version, found, pending) is Ok,
    ensures
        ({
            let all = resolve(files, version, found, pending)->Ok_0;
            &&& found.is_prefix_of(all)
            &&& forall|k: int| 0 <= k < pending.len() ==> all.contains(#[trigger] pending[k])
            &&& forall|i: int|
                found.len() <= i < all.len() ==> (#[trigger] chunk_of(files, version, all[i]))
                    is Some
            &&& forall|i: int, k: int|
                found.len() <= i < all.len() && 0 <= k < chunk_of(
                    files,
                    version,
                    all[i],
                )->0.required.len() ==> all.contains(
                    #[trigger] chunk_of(files, version, all[i])->0.required[k],
                )
            &&& forall|i: int|
                found.len() <= i < all.len() ==> pending.contains(#[trigger] all[i]) || exists|
                    j: int,
                |
                    found.len() <= j < i && (#[trigger] chunk_of(
                        files,
                        version,
                        all[j],
                    ))->0.required.contains(all[i])
        }),
    decreases unexplored(files, found, pending), pending.len(),
{
    let all = resolve(files, version, found, pending)->Ok_0;
    if pending.len() == 0 {
        assert(found.subrange(0, found.len() as int) =~= found);
    } else if found.contains(pending[0]) {
        let rest = pending.drop_first();
        lemma_unexplored_after_skip(files, found, pending);
        lemma_resolve_closure(files, version, found, rest);
        assert forall|k: int| 0 <= k < pending.len() implies all.contains(
            #[trigger] pending[k],
        ) by {
            if k == 0 {
                let i = found.index_of(pending[0]);
                assert(all[i] == found[i]);
            } else {
                assert(rest[k - 1] == pending[k]);
            }
        }
        assert forall|i: int| found.len() <= i < all.len() implies pending.contains(
            #[trigger] all[i],
        ) || exists|j: int|
            found.len() <= j < i && (#[trigger] chunk_of(
                files,
                version,
                all[j],
            ))->0.required.contains(all[i]) by {
            if rest.contains(all[i]) {
                let k = rest.index_of(all[i]);
                assert(pending[k + 1] == all[i]);
            }
        }
    } else {
        let first = pending[0];
        let chunk = chunk_of(files, version, first)->0;
        let rest = pending.drop_first();
        let next = chunk.required + rest;
        let more = found.push(first);
        lemma_unexplored_after_push(files, version, found, pending);
        lemma_resolve_closure(files, version, more, next);
        assert(all[found.len() as int] == more[found.len() as int]);
        assert(found =~= all.subrange(0, found.len() as int)) by {
            assert forall|i: int| 0 <= i < found.len() implies found[i] == all[i] by {
                assert(more[i] == all[i]);
            }
        }
        assert forall|k: int| 0 <= k < pending.len() implies all.contains(
            #[trigger] pending[k],
        ) by {
            if k > 0 {
                assert(next[chunk.required.len() + k - 1] == pending[k]);
            }
        }
        assert forall|i: int, k: int|
            found.len() <= i < all.len() && 0 <= k < chunk_of(
                files,
                version,
                all[i],
            )->0.required.len() implies all.contains(
            #[trigger] chunk_of(files, version, all[i])->0.required[k],
        ) by {
            if i == found.len() {
                assert(next[k] == chunk.required[k]);
            }
        }
        assert forall|i: int| found.len() <= i < all.len() implies pending.contains(
            #[trigger] all[i],
        ) || exists|j: int|
            found.len() <= j < i && (#[trigger] chunk_of(
                files,
                version,
                all[j],
            ))->0.required.contains(all[i]) by {
            if i == found.len() {
                assert(pending[0] == all[i]);
            } else if next.contains(all[i]) {
                let k = next.index_of(all[i]);
                if k < chunk.required.len() {
                    assert(chunk.required[k] == all[i]);
                    assert(chunk_of(files, version, all[found.len() as int])->0.required.contains(
                        all[i],
                    ));
                } else {
                    assert(pending[k - chunk.required.len() + 1] == all[i]);
                }
            }
        }
    }
}

/// The requirements that a stack of identifiers holds, the top of the
/// stack first.
spec fn pending_of(stack: Seq<String>) -> Seq<Seq<char>> {
    Seq::new(stack.len(), |k: int| stack[stack.len() - 1 - k]@)
}

/// Puts `items` on the stack, the first of them on top.
fn push_reversed(stack: &mut Vec<String>, items: &Vec<String>)
    ensures
        pending_of(final(stack)@) == items.deep_view() + pending_of(old(stack)@),
{
    let mut i: usize = items.len();
    assert(items.deep_view().subrange(i as int, items.len() as int) + pending_of(stack@)
        =~= pending_of(stack@));
    while i > 0
        invariant
            i <= items.len(),
            pending_of(stack@) == items.deep_view().subrange(i as int, items.len() as int)
                + pending_of(old(stack)@),
        decreases i,
    {
        i -= 1;
        let ghost before = stack@;
        stack.push(items[i].clone());
        assert(pending_of(stack@) =~= seq![items[i as int]@] + pending_of(before));
        assert(pending_of(stack@) =~= items.deep_view().subrange(i as int, items.len() as int)
            + pending_of(old(stack)@));
    }
    assert(items.deep_view().subrange(0, items.len() as int) =~= items.deep_view());
}

/// Adds to `required` every chunk that `shader_file` requires, directly or
/// through another chunk, and that `required` does not hold yet: each one
/// when it is first met, before what it requires itself. A chunk that
/// `required` holds already is not looked into again, so that chunks which
/// require each other end the search. It fails on the first requirement met
/// whose chunk no file holds.
pub fn collect_requirements(
    chunks_cache: &mut ChunksCache,
    required: &mut LinkedHashSet<String, RandomState>,
    shader_file: &ShaderFile,
) -> (r: Result<(), ProgramError>)
    requires
        old(chunks_cache).well_formed(),
    ensures
        final(chunks_cache).well_formed(),
        final(chunks_cache).files() == old(chunks_cache).files(),
        final(chunks_cache).version() == old(chunks_cache).version(),
        match resolve(
            old(chunks_cache).files(),
            old(chunks_cache).version(),
            set_items(*old(required)),
            shader_file@.required,
        ) {
            Ok(found) => r is Ok && set_items(*final(required)) == found,
            Err(chunk) => r matches Err(error) && error@ == (ProgramErrorView::MissingChunk {
                chunk,
            }),
        },
        set_items(*final(required)) == searched(
            old(chunks_cache).files(),
            old(chunks_cache).version(),
            set_items(*old(required)),
            shader_file@.required,
        ),
        final(chunks_cache).cached() == old(chunks_cache).cached().union(
            with_file(
                old(chunks_cache).files(),
                old(chunks_cache).version(),
                set_items(*final(required)).skip(set_items(*old(required)).len() as int),
            ),
        ),
        r is Ok && set_items(*old(required)).no_duplicates() ==> set_items(
            *final(required),
        ).no_duplicates(),
{
    proof {
        if set_items(*required).no_duplicates() {
            lemma_resolve_no_duplicates(
                chunks_cache.files(),
                chunks_cache.version(),
                set_items(*required),
                shader_file@.required,
            );
        }
    }
    let ghost files = chunks_cache.files();
    let ghost version = chunks_cache.version();
    let ghost goal = resolve(files, version, set_items(*required), shader_file@.required);
    let ghost end = searched(files, version, set_items(*required), shader_file@.required);
    let ghost before = set_items(*required);
    let ghost kept = chunks_cache.cached();
    proof {
        lemma_searched(files, version, before, shader_file@.required);
        assert(before.skip(before.len() as int) =~= Seq::<Seq<char>>::empty());
        assert(kept.union(with_file(files, version, Seq::<Seq<char>>::empty())) =~= kept);
    }
    let mut stack: Vec<String> = Vec::new();
    assert(pending_of(stack@) =~= Seq::<Seq<char>>::empty());
    push_reversed(&mut stack, &shader_file.required);
    assert(pending_of(stack@) =~= shader_file@.required);
    while stack.len() > 0
        invariant
            chunks_cache.well_formed(),
            chunks_cache.files() == files,
            chunks_cache.version() == version,
            files == old(chunks_cache).files(),
            version == old(chunks_cache).version(),
            resolve(files, version, set_items(*required), pending_of(stack@)) == goal,
            goal == resolve(files, version, set_items(*old(required)), shader_file@.required),
            searched(files, version, set_items(*required), pending_of(stack@)) == end,
            end == searched(files, version, set_items(*old(required)), shader_file@.required),
            before == set_items(*old(required)),
            before.is_prefix_of(set_items(*required)),
            kept == old(chunks_cache).cached(),
            chunks_cache.cached() == kept.union(
                with_file(files, version, set_items(*required).skip(before.len() as int)),
            ),
        decreases unexplored(files, set_items(*required), pending_of(stack@)), stack.len(),
    {
        let ghost pending = pending_of(stack@);
        let ghost found = set_items(*required);
        let requirement = stack.pop().unwrap();
        assert(pending[0] == requirement@);
        assert(pending_of(stack@) =~= pending.drop_first());
        if !set_contains(required, &requirement) {
            set_insert(required, requirement.clone());
            proof {
                lemma_insert_last(found, requirement@);
                if chunk_of(files, version, requirement@) is Some {
                    lemma_unexplored_after_push(files, version, found, pending);
                }
                let more = found.push(requirement@);
                assert(before =~= more.subrange(0, before.len() as int)) by {
                    assert forall|i: int| 0 <= i < before.len() implies before[i] == more[i] by {
                        assert(found[i] == more[i]);
                    }
                }
                assert(more.skip(before.len() as int) =~= found.skip(before.len() as int).push(
                    requirement@,
                ));
                lemma_with_file_push(
                    files,
                    version,
                    found.skip(before.len() as int),
                    requirement@,
                );
            }
            match chunks_cache.get_chunk(requirement) {
                Err(error) => {
                    return Err(error);
                },
                Ok(chunk) => {
                    push_reversed(&mut stack, &chunk.required);
                },
            }
        } else {
            proof {
                lemma_unexplored_after_skip(files, found, pending);
            }
        }
    }
    Ok(())
}

} // verus!
