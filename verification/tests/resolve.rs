use glib::assemble::resolve_requirements;
use glib::chunks::ChunksCache;
use glib::directive::ShaderFile;
use glib::error::ProgramError;
use glib::resolve::collect_requirements;
use glib::tree::{VirtualDir, VirtualFile};
use linked_hash_set::LinkedHashSet;

fn dir(files: &[(&str, &str)]) -> VirtualDir {
    VirtualDir {
        files: files
            .iter()
            .map(|(path, contents)| VirtualFile {
                path: path.to_string(),
                contents: contents.to_string(),
            })
            .collect(),
        dirs: vec![],
    }
}

fn collect(files: &[(&str, &str)], defaults: &[&str], source: &str) -> Result<Vec<String>, String> {
    let directory = dir(files);
    let mut cache = ChunksCache::new(&directory, "330");
    let mut set = LinkedHashSet::new();
    for name in defaults {
        set.insert(name.to_string());
    }
    match collect_requirements(&mut cache, &mut set, &ShaderFile::new(source)) {
        Ok(()) => Ok(set.iter().cloned().collect()),
        Err(ProgramError::MissingChunk { chunk }) => Err(chunk),
        Err(other) => panic!("unexpected {:?}", other),
    }
}

fn strs(items: &[&str]) -> Vec<String> {
    items.iter().map(|s| s.to_string()).collect()
}

#[test]
fn nothing_required_leaves_the_defaults() {
    assert_eq!(collect(&[], &["d1", "d2"], "void main() {}"), Ok(strs(&["d1", "d2"])));
    assert_eq!(collect(&[], &[], ""), Ok(strs(&[])));
}

#[test]
fn requirements_follow_the_defaults_in_source_order() {
    let files = [("a.glsl", "A"), ("b.glsl", "B")];
    assert_eq!(
        collect(&files, &["d"], "#require <b>\n#require <a>\n"),
        Ok(strs(&["d", "b", "a"]))
    );
}

#[test]
fn a_chunk_is_followed_before_its_later_siblings() {
    let files = [
        ("a.glsl", "#require <a1>\n#require <a2>\n"),
        ("a1.glsl", "#require <a11>\n"),
        ("a11.glsl", ""),
        ("a2.glsl", ""),
        ("b.glsl", "#require <b1>\n"),
        ("b1.glsl", ""),
    ];
    assert_eq!(
        collect(&files, &[], "#require <a>\n#require <b>\n"),
        Ok(strs(&["a", "a1", "a11", "a2", "b", "b1"]))
    );
}

#[test]
fn chunks_that_require_each_other_end_the_search() {
    let files = [("A.glsl", "#require <B>\n"), ("B.glsl", "#require <A>\n")];
    assert_eq!(
        collect(&files, &["uniforms/common"], "#require <A>\n"),
        Ok(strs(&["uniforms/common", "A", "B"]))
    );
    assert_eq!(collect(&files, &[], "#require <A>\n"), Ok(strs(&["A", "B"])));
    assert_eq!(collect(&files, &[], "#require <B>\n"), Ok(strs(&["B", "A"])));
}

#[test]
fn a_chunk_that_requires_itself_is_found_once() {
    let files = [("a.glsl", "#require <a>\n#require <a>\n")];
    assert_eq!(collect(&files, &[], "#require <a>\n#require <a>\n"), Ok(strs(&["a"])));
}

#[test]
fn no_chunk_is_found_twice() {
    let files = [
        ("a.glsl", "#require <c>\n#require <d>\n"),
        ("b.glsl", "#require <d>\n#require <c>\n#require <e>\n"),
        ("c.glsl", "#require <e>\n"),
        ("d.glsl", "#require <a>\n"),
        ("e.glsl", "#require <b>\n"),
    ];
    let found = collect(&files, &["d", "x"], "#require <a>\n#require <b>\n#require <a>\n").unwrap();
    assert_eq!(found, strs(&["d", "x", "a", "c", "e", "b"]));
    for (i, one) in found.iter().enumerate() {
        for other in &found[i + 1..] {
            assert_ne!(one, other);
        }
    }
}

#[test]
fn a_chunk_met_on_two_branches_is_looked_into_on_the_first() {
    let files = [
        ("left.glsl", "#require <shared>\n"),
        ("right.glsl", "#require <shared>\n#require <only_right>\n"),
        ("shared.glsl", "#require <deep>\n"),
        ("deep.glsl", ""),
        ("only_right.glsl", ""),
    ];
    assert_eq!(
        collect(&files, &[], "#require <left>\n#require <right>\n"),
        Ok(strs(&["left", "shared", "deep", "right", "only_right"]))
    );
    assert_eq!(
        collect(&files, &[], "#require <right>\n#require <left>\n"),
        Ok(strs(&["right", "shared", "deep", "only_right", "left"]))
    );
}

#[test]
fn what_a_default_requires_is_not_followed() {
    let files = [("d.glsl", "#require <hidden>\n"), ("hidden.glsl", "")];
    assert_eq!(collect(&files, &["d"], "#require <d>\n"), Ok(strs(&["d"])));
    assert_eq!(collect(&files, &[], "#require <d>\n"), Ok(strs(&["d", "hidden"])));
}

#[test]
fn a_default_need_not_exist_to_be_collected() {
    assert_eq!(collect(&[], &["nowhere"], "#require <nowhere>\n"), Ok(strs(&["nowhere"])));
}

#[test]
fn first_missing_chunk_in_search_order_is_the_error() {
    let files = [("a.glsl", "#require <gone1>\n"), ("b.glsl", "")];
    assert_eq!(
        collect(&files, &[], "#require <b>\n#require <a>\n#require <gone2>\n"),
        Err("gone1".to_string())
    );
    assert_eq!(
        collect(&files, &[], "#require <gone2>\n#require <a>\n"),
        Err("gone2".to_string())
    );
}

#[test]
fn long_chain_is_followed_to_its_end() {
    let mut files: Vec<(String, String)> = Vec::new();
    let count = 3000;
    for i in 0..count {
        let contents = if i + 1 < count { format!("#require <c{}>\n", i + 1) } else { String::new() };
        files.push((format!("c{}.glsl", i), contents));
    }
    let borrowed: Vec<(&str, &str)> = files.iter().map(|(p, c)| (p.as_str(), c.as_str())).collect();
    let found = collect(&borrowed, &[], "#require <c0>\n").unwrap();
    assert_eq!(found.len(), count);
    assert_eq!(found[0], "c0");
    assert_eq!(found[count - 1], format!("c{}", count - 1));
}

fn kept(cache: &ChunksCache, names: &[&str]) -> Vec<bool> {
    names.iter().map(|name| cache.is_cached(&name.to_string())).collect()
}

#[test]
fn requirements_are_resolved_from_plain_values() {
    let directory = dir(&[
        ("a.glsl", "#require <b>\n"),
        ("b.glsl", "#require <a>\n#require <uniforms/common>\n"),
        ("uniforms/common.glsl", "#require <hidden>\n"),
    ]);
    let mut cache = ChunksCache::new(&directory, "330");
    let found = resolve_requirements(
        &mut cache,
        &["attributes/common", "uniforms/common"],
        &ShaderFile::new("#require <a>\n"),
    )
    .unwrap();
    assert_eq!(found, strs(&["attributes/common", "uniforms/common", "a", "b"]));
    assert_eq!(
        kept(&cache, &["attributes/common", "uniforms/common", "a", "b", "hidden"]),
        vec![false, false, true, true, false]
    );
}

#[test]
fn resolving_fails_on_the_first_missing_requirement_and_keeps_what_it_got() {
    let directory = dir(&[("a.glsl", "#require <gone>\n#require <b>\n"), ("b.glsl", "")]);
    let mut cache = ChunksCache::new(&directory, "330");
    match resolve_requirements(&mut cache, &[], &ShaderFile::new("#require <a>\n#require <b>\n")) {
        Err(ProgramError::MissingChunk { chunk }) => assert_eq!(chunk, "gone"),
        other => panic!("unexpected {:?}", other),
    }
    assert_eq!(kept(&cache, &["a", "gone", "b"]), vec![true, false, false]);
}

#[test]
fn a_requirement_that_is_found_already_is_not_asked_of_the_store() {
    let directory = dir(&[
        ("uniforms/common.glsl", "#require <structs/light>\nU"),
        ("structs/light.glsl", "S"),
    ]);
    let mut cache = ChunksCache::new(&directory, "330");
    let mut set = LinkedHashSet::new();
    set.insert("uniforms/common".to_string());
    let file = ShaderFile::new("#require <uniforms/common>\nM");
    collect_requirements(&mut cache, &mut set, &file).unwrap();
    let found: Vec<String> = set.iter().cloned().collect();
    assert_eq!(found, strs(&["uniforms/common"]));
    assert_eq!(kept(&cache, &["uniforms/common", "structs/light"]), vec![false, false]);
}

#[test]
fn a_failed_search_leaves_the_missing_chunk_last_in_the_set() {
    let directory = dir(&[("a.glsl", "#require <gone>\n#require <b>\n"), ("b.glsl", "")]);
    let mut cache = ChunksCache::new(&directory, "330");
    let mut set = LinkedHashSet::new();
    set.insert("d".to_string());
    let file = ShaderFile::new("#require <a>\n#require <b>\n");
    assert!(collect_requirements(&mut cache, &mut set, &file).is_err());
    let found: Vec<String> = set.iter().cloned().collect();
    assert_eq!(found, strs(&["d", "a", "gone"]));
}
