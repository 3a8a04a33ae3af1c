use glib::assemble::{append_chunks, category, create_program_part, in_render_order, Category};
use glib::chunks::ChunksCache;
use glib::directive::ShaderFile;
use glib::error::ProgramError;
use glib::tree::{VirtualDir, VirtualFile};

fn dir(files: &[(&str, &str)]) -> VirtualDir {
    VirtualDir {
        files: files
            .iter()
            .map(|(path, contents)| VirtualFile {
                path: path.to_string(),
                contents: contents.to_string(),
            })
            .collect(),
        dirs: vec![],
    }
}

fn strs(items: &[&str]) -> Vec<String> {
    items.iter().map(|s| s.to_string()).collect()
}

fn part(files: &[(&str, &str)], defaults: &[&str], source: &str, version: &str) -> Result<String, String> {
    let directory = dir(files);
    let mut cache = ChunksCache::new(&directory, version);
    match create_program_part(&mut cache, defaults, &ShaderFile::new(source), version) {
        Ok(text) => Ok(text),
        Err(ProgramError::MissingChunk { chunk }) => Err(chunk),
        Err(other) => panic!("unexpected {:?}", other),
    }
}

#[test]
fn category_goes_by_the_beginning_of_the_identifier() {
    assert_eq!(category("attributes/common"), Category::Attributes);
    assert_eq!(category("uniforms/common"), Category::Uniforms);
    assert_eq!(category("structs/light"), Category::Structs);
    assert_eq!(category("functions/lighting"), Category::Other);
    assert_eq!(category("lighting"), Category::Other);
    assert_eq!(category("attributes"), Category::Other);
    assert_eq!(category("attributes/"), Category::Attributes);
    assert_eq!(category("my/attributes/a"), Category::Other);
    assert_eq!(category("uniforms_x/a"), Category::Other);
    assert_eq!(category(""), Category::Other);
}

#[test]
fn chunks_are_ordered_by_category_and_then_as_found() {
    assert_eq!(
        in_render_order(&strs(&["x", "attributes/a", "uniforms/u", "y", "structs/s"])),
        strs(&["attributes/a", "uniforms/u", "structs/s", "x", "y"])
    );
    assert_eq!(
        in_render_order(&strs(&[
            "structs/2", "b", "uniforms/2", "attributes/2", "a", "structs/1", "uniforms/1",
            "attributes/1",
        ])),
        strs(&[
            "attributes/2", "attributes/1", "uniforms/2", "uniforms/1", "structs/2", "structs/1",
            "b", "a",
        ])
    );
    assert_eq!(in_render_order(&strs(&[])), strs(&[]));
    assert_eq!(in_render_order(&strs(&["z", "y"])), strs(&["z", "y"]));
}

#[test]
fn bodies_are_appended_with_two_line_feeds_each() {
    let directory = dir(&[("a.glsl", "  A  "), ("b.glsl", "#require <a>\nB\n")]);
    let mut cache = ChunksCache::new(&directory, "330");
    let mut program = String::from("start:");
    append_chunks(&mut cache, &mut program, &strs(&["b", "a", "b"])).unwrap();
    assert_eq!(program, "start:B\n\nA\n\nB\n\n");
    let mut untouched = String::from("x");
    append_chunks(&mut cache, &mut untouched, &strs(&[])).unwrap();
    assert_eq!(untouched, "x");
}

#[test]
fn appending_fails_on_the_first_missing_chunk() {
    let directory = dir(&[("a.glsl", "A")]);
    let mut cache = ChunksCache::new(&directory, "330");
    let mut program = String::new();
    match append_chunks(&mut cache, &mut program, &strs(&["a", "gone", "also_gone"])) {
        Err(ProgramError::MissingChunk { chunk }) => assert_eq!(chunk, "gone"),
        other => panic!("unexpected {:?}", other),
    }
}

#[test]
fn part_is_version_line_then_bodies_then_own_body() {
    let files = [
        ("attributes/common.glsl", "in vec3 position;"),
        ("uniforms/common.glsl", "uniform mat4 u;"),
    ];
    assert_eq!(
        part(&files, &["attributes/common", "uniforms/common"], "void main() {}\n", "330"),
        Ok("#version 330\n\nin vec3 position;\n\nuniform mat4 u;\n\nvoid main() {}".to_string())
    );
    assert_eq!(part(&files, &[], "void main() {}", "330"), Ok("#version 330\n\nvoid main() {}".to_string()));
    assert_eq!(part(&files, &[], "", "330"), Ok("#version 330\n\n".to_string()));
}

#[test]
fn part_writes_the_categories_in_their_order() {
    let files = [
        ("x.glsl", "X"),
        ("y.glsl", "Y"),
        ("attributes/a.glsl", "AA"),
        ("uniforms/u.glsl", "UU"),
        ("structs/s.glsl", "SS"),
    ];
    let source = "#require <x>\n#require <attributes/a>\n#require <uniforms/u>\n#require <y>\n#require <structs/s>\nmain";
    assert_eq!(
        part(&files, &[], source, "140"),
        Ok("#version 140\n\nAA\n\nUU\n\nSS\n\nX\n\nY\n\nmain".to_string())
    );
}

#[test]
fn part_holds_every_required_chunk_once() {
    let files = [
        ("functions/light.glsl", "#require <structs/light>\n#require <uniforms/common>\nfloat light();"),
        ("structs/light.glsl", "struct Light {};"),
        ("uniforms/common.glsl", "uniform mat4 u;"),
        ("functions/fog.glsl", "#require <uniforms/common>\n#require <light>\nfloat fog();"),
    ];
    let source = "#require <light>\n#require <fog>\n#require <light>\nvoid main() {}";
    assert_eq!(
        part(&files, &["uniforms/common"], source, "330"),
        Ok("#version 330\n\nuniform mat4 u;\n\nstruct Light {};\n\nfloat light();\n\nfloat fog();\n\nvoid main() {}"
            .to_string())
    );
}

#[test]
fn version_line_keeps_the_spaces_that_file_names_lose() {
    let files = [("u.330core.glsl", "core"), ("u.glsl", "plain")];
    assert_eq!(
        part(&files, &[], "#require <u>\nmain", "330 core"),
        Ok("#version 330 core\n\ncore\n\nmain".to_string())
    );
}

#[test]
fn repeated_default_moves_to_its_last_place() {
    let files = [("a.glsl", "A"), ("b.glsl", "B")];
    assert_eq!(part(&files, &["a", "b", "a"], "main", "330"), Ok("#version 330\n\nB\n\nA\n\nmain".to_string()));
}

#[test]
fn missing_default_fails_when_the_bodies_are_written() {
    let files = [("a.glsl", "A")];
    assert_eq!(part(&files, &["uniforms/common"], "#require <a>\nmain", "330"), Err("uniforms/common".to_string()));
    assert_eq!(
        part(&files, &["uniforms/common"], "#require <a>\n#require <gone>\nmain", "330"),
        Err("gone".to_string())
    );
    assert_eq!(
        part(&files, &["x", "attributes/gone", "uniforms/gone"], "main", "330"),
        Err("attributes/gone".to_string())
    );
}

fn kept(cache: &ChunksCache, names: &[&str]) -> Vec<bool> {
    names.iter().map(|name| cache.is_cached(&name.to_string())).collect()
}

#[test]
fn appending_keeps_the_chunks_given_and_no_other() {
    let directory = dir(&[("a.glsl", "#require <c>\nA"), ("b.glsl", "B"), ("c.glsl", "C")]);
    let mut cache = ChunksCache::new(&directory, "330");
    let mut program = String::new();
    append_chunks(&mut cache, &mut program, &strs(&["a", "b"])).unwrap();
    assert_eq!(kept(&cache, &["a", "b", "c"]), vec![true, true, false]);
}

#[test]
fn appending_that_fails_keeps_the_chunks_before_the_missing_one() {
    let directory = dir(&[("a.glsl", "A"), ("b.glsl", "B")]);
    let mut cache = ChunksCache::new(&directory, "330");
    let mut program = String::new();
    assert!(append_chunks(&mut cache, &mut program, &strs(&["a", "gone", "b"])).is_err());
    assert_eq!(kept(&cache, &["a", "gone", "b"]), vec![true, false, false]);
}

#[test]
fn composing_a_part_keeps_the_defaults_and_what_is_required() {
    let directory = dir(&[
        ("uniforms/common.glsl", "#require <hidden>\nU"),
        ("hidden.glsl", "H"),
        ("a.glsl", "#require <b>\nA"),
        ("b.glsl", "B"),
        ("unused.glsl", "X"),
    ]);
    let mut cache = ChunksCache::new(&directory, "330");
    create_program_part(&mut cache, &["uniforms/common"], &ShaderFile::new("#require <a>\nM"), "330")
        .unwrap();
    assert_eq!(
        kept(&cache, &["uniforms/common", "a", "b", "hidden", "unused"]),
        vec![true, true, true, false, false]
    );
}
