use glib::chunks::ChunksCache;
use glib::directive::ShaderFile;
use glib::error::ProgramError;
use glib::program::load_sources;
use glib::tree::{VirtualDir, VirtualFile};
use linked_hash_set::LinkedHashSet;
use regex::Regex;
use std::collections::HashMap;

struct Parsed {
    required: Vec<String>,
    rest: String,
}

struct Plain<'a> {
    files: &'a [(String, String)],
    version: String,
    parsed: HashMap<String, Parsed>,
    pattern: Regex,
}

impl<'a> Plain<'a> {
    fn new(files: &'a [(String, String)], version: &str) -> Plain<'a> {
        Plain {
            files,
            version: version.replace(" ", ""),
            parsed: HashMap::new(),
            pattern: Regex::new(r"(?m)^#require <(?P<path>[a-zA-Z0-9/\-_]+)>\r?$").unwrap(),
        }
    }

    fn parse(&self, contents: &str) -> Parsed {
        Parsed {
            required: self.pattern.captures_iter(contents).map(|c| c[1].to_string()).collect(),
            rest: self.pattern.replace_all(contents, "").trim().to_string(),
        }
    }

    fn file(files: &[(String, String)], paths: &[String]) -> Option<String> {
        for path in paths {
            if let Some((_, contents)) = files.iter().find(|(p, _)| p == path) {
                return Some(contents.clone());
            }
        }
        None
    }

    fn chunk(&mut self, name: &str) -> Result<(Vec<String>, String), String> {
        if !self.parsed.contains_key(name) {
            let paths = [
                format!("{}.{}.glsl", name, self.version),
                format!("{}.glsl", name),
                format!("functions/{}.{}.glsl", name, self.version),
                format!("functions/{}.glsl", name),
            ];
            match Plain::file(self.files, &paths) {
                None => return Err(name.to_string()),
                Some(contents) => {
                    let parsed = self.parse(&contents);
                    self.parsed.insert(name.to_string(), parsed);
                }
            }
        }
        let parsed = &self.parsed[name];
        Ok((parsed.required.clone(), parsed.rest.clone()))
    }

    fn collect(&mut self, required: &mut LinkedHashSet<String>, wanted: &[String]) -> Result<(), String> {
        for requirement in wanted {
            if !required.contains(requirement) {
                required.insert(requirement.to_string());
                let (next, _) = self.chunk(requirement)?;
                self.collect(required, &next)?;
            }
        }
        Ok(())
    }

    fn part(&mut self, defaults: &[&str], source: &str, version: &str) -> Result<String, String> {
        let own = self.parse(source);
        let mut requirements = LinkedHashSet::new();
        for requirement in defaults {
            requirements.insert(requirement.to_string());
        }
        self.collect(&mut requirements, &own.required)?;
        let mut program = format!("#version {}\n\n", version);
        let mut required: Vec<String> = requirements.iter().map(|r| r.to_string()).collect();
        for group in ["attributes", "uniforms", "structs"] {
            let (current, rest): (Vec<String>, Vec<String>) =
                required.drain(..).partition(|r| r.starts_with(&(group.to_string() + "/")));
            for name in &current {
                program.push_str(&self.chunk(name)?.1);
                program.push_str("\n\n");
            }
            required = rest;
        }
        for name in &required {
            program.push_str(&self.chunk(name)?.1);
            program.push_str("\n\n");
        }
        program.push_str(&own.rest);
        Ok(program)
    }

    fn material(&mut self, materials: &[(String, String)], name: &str, version: &str) -> Result<(String, String), String> {
        let joined = version.replace(" ", "");
        let vertex = Plain::file(
            materials,
            &[format!("{}/vert.{}.glsl", name, joined), format!("{}/vert.glsl", name)],
        )
        .ok_or(format!("No vertex shader file found for \"{}\" material!", name))?;
        let vertex = self
            .part(&["attributes/common", "uniforms/common"], &vertex, version)
            .map_err(|chunk| format!("Chunk \"{}\" not found!", chunk))?;
        let fragment = Plain::file(
            materials,
            &[format!("{}/frag.{}.glsl", name, joined), format!("{}/frag.glsl", name)],
        )
        .ok_or(format!("No fragment shader file found for \"{}\" material!", name))?;
        let fragment = self
            .part(&["uniforms/common"], &fragment, version)
            .map_err(|chunk| format!("Chunk \"{}\" not found!", chunk))?;
        Ok((vertex, fragment))
    }
}

struct Dice(u64);

impl Dice {
    fn roll(&mut self, sides: usize) -> usize {
        self.0 ^= self.0 << 13;
        self.0 ^= self.0 >> 7;
        self.0 ^= self.0 << 17;
        (self.0 % sides as u64) as usize
    }
}

const NAMES: [&str; 12] = [
    "attributes/common",
    "attributes/skin",
    "uniforms/common",
    "uniforms/light",
    "structs/light",
    "structs/fog",
    "lighting",
    "functions/lighting",
    "fog",
    "noise",
    "util/hash",
    "nowhere",
];

fn source(dice: &mut Dice, missing_allowed: bool) -> String {
    let mut text = String::new();
    for _ in 0..dice.roll(5) {
        let pick = dice.roll(if missing_allowed { NAMES.len() } else { NAMES.len() - 1 });
        match dice.roll(6) {
            0 => text.push_str(&format!("#require <{}>\r\n", NAMES[pick])),
            1 => text.push_str(&format!(" #require <{}>\n", NAMES[pick])),
            _ => text.push_str(&format!("#require <{}>\n", NAMES[pick])),
        }
        if dice.roll(3) == 0 {
            text.push_str("  float x;\n");
        }
    }
    text.push_str(&format!("body {};\n", dice.roll(1000)));
    text
}

fn tree(dice: &mut Dice, version: &str, missing_one_in: usize) -> Vec<(String, String)> {
    let mut files = Vec::new();
    for name in &NAMES[..NAMES.len() - 1] {
        if dice.roll(missing_one_in) == 0 {
            continue;
        }
        let path = match dice.roll(4) {
            0 => format!("{}.{}.glsl", name, version.replace(" ", "")),
            1 => format!("functions/{}.glsl", name),
            2 => format!("functions/{}.{}.glsl", name, version.replace(" ", "")),
            _ => format!("{}.glsl", name),
        };
        let allow_missing = dice.roll(8) == 0;
        files.push((path, source(dice, allow_missing)));
    }
    files
}

fn to_dir(files: &[(String, String)], dirs: &[&str]) -> VirtualDir {
    VirtualDir {
        files: files
            .iter()
            .map(|(path, contents)| VirtualFile { path: path.clone(), contents: contents.clone() })
            .collect(),
        dirs: dirs.iter().map(|d| d.to_string()).collect(),
    }
}

fn compare(seed: u64, rounds: usize, missing_one_in: usize) -> (usize, usize) {
    let mut dice = Dice(seed);
    let mut composed = 0;
    let mut failed = 0;
    for _ in 0..rounds {
        let version = ["330", "140", "330 core"][dice.roll(3)];
        let chunk_files = tree(&mut dice, version, missing_one_in);
        let mut material_files = Vec::new();
        for name in ["a", "b"] {
            if dice.roll(12) != 0 {
                let path = if dice.roll(2) == 0 {
                    format!("{}/vert.{}.glsl", name, version.replace(" ", ""))
                } else {
                    format!("{}/vert.glsl", name)
                };
                material_files.push((path, source(&mut dice, false)));
            }
            if dice.roll(12) != 0 {
                material_files.push((format!("{}/frag.glsl", name), source(&mut dice, false)));
            }
        }
        let chunks = to_dir(&chunk_files, &[]);
        let materials = to_dir(&material_files, &["a", "b"]);
        let mut cache = ChunksCache::new(&chunks, version);
        let mut plain = Plain::new(&chunk_files, version);
        for name in ["a", "b"] {
            let expected = plain.material(&material_files, name, version);
            let got = load_sources(&materials, &mut cache, name, version).map_err(|e| e.message());
            assert_eq!(got, expected, "seed {} material {}", seed, name);
            match got {
                Ok(_) => composed += 1,
                Err(_) => failed += 1,
            }
        }
    }
    (composed, failed)
}

#[test]
fn sources_agree_with_a_plain_composition_where_chunks_are_there() {
    let (composed, _) = compare(0x9E3779B97F4A7C15, 400, 1000);
    assert!(composed > 400);
}

#[test]
fn sources_agree_with_a_plain_composition_where_chunks_are_missing() {
    let (composed, failed) = compare(0xD1B54A32D192ED03, 400, 6);
    assert!(composed > 20);
    assert!(failed > 200);
}

#[test]
fn missing_chunk_error_is_a_missing_chunk() {
    let chunks = to_dir(&[], &[]);
    let mut cache = ChunksCache::new(&chunks, "330");
    let mut set = LinkedHashSet::new();
    let file = ShaderFile::new("#require <x>\n");
    match glib::resolve::collect_requirements(&mut cache, &mut set, &file) {
        Err(ProgramError::MissingChunk { chunk }) => assert_eq!(chunk, "x"),
        other => panic!("unexpected {:?}", other),
    }
}
