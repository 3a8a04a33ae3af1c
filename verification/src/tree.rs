//! A read-only tree of text files, as the composition reads it: files found
//! by their exact path, and the names of the directories at its root.

use vstd::prelude::*;

verus! {

/// A text file of a `VirtualDir`.
#[derive(Debug)]
pub struct VirtualFile {
    /// The path from the root of the tree, with `/` between its parts.
    pub path: String,
    /// The text of the file.
    pub contents: String,
}

/// What a `VirtualFile` stands for in contracts.
pub struct FileView {
    pub path: Seq<char>,
    pub contents: Seq<char>,
}

impl View for VirtualFile {
    type V = FileView;

    open spec fn view(&self) -> FileView {
        FileView { path: self.path@, contents: self.contents@ }
    }
}

impl DeepView for VirtualFile {
    type V = FileView;

    open spec fn deep_view(&self) -> FileView {
        self@
    }
}

/// A tree of text files.
#[derive(Debug)]
pub struct VirtualDir {
    /// Every file of the tree, at whatever depth, in the order in which a
    /// search meets them.
    pub files: Vec<VirtualFile>,
    /// The names of the directories that stand directly under the root.
    pub dirs: Vec<String>,
}

/// What a `VirtualDir` stands for in contracts.
pub struct DirView {
    pub files: Seq<FileView>,
    pub dirs: Seq<Seq<char>>,
}

impl View for VirtualDir {
    type V = DirView;

    open spec fn view(&self) -> DirView {
        DirView { files: self.files.deep_view(), dirs: self.dirs.deep_view() }
    }
}

/// The first of `files` whose path is exactly `path`.
pub open spec fn find_file(files: Seq<FileView>, path: Seq<char>) -> Option<FileView>
    decreases files.len(),
{
    if files.len() == 0 {
        None
    } else if files[0].path == path {
        Some(files[0])
    } else {
        find_file(files.drop_first(), path)
    }
}

/// The file that the first of `paths` to name a file names.
pub open spec fn find_first(files: Seq<FileView>, paths: Seq<Seq<char>>) -> Option<FileView>
    decreases paths.len(),
{
    if paths.len() == 0 {
        None
    } else {
        match find_file(files, paths[0]) {
            Some(file) => Some(file),
            None => find_first(files, paths.drop_first()),
        }
    }
}

/// A file that is found is one of the files.
pub proof fn lemma_find_file_is_member(files: Seq<FileView>, path: Seq<char>)
    ensures
        find_file(files, path) matches Some(file) ==> files.contains(file) && file.path == path,
    decreases files.len(),
{
    if files.len() > 0 {
        if files[0].path == path {
            assert(files[0] == files[0]);
        } else {
            lemma_find_file_is_member(files.drop_first(), path);
            if let Some(file) = find_file(files.drop_first(), path) {
                let i = choose|i: int| 0 <= i < files.len() - 1 && files.drop_first()[i] == file;
                assert(files[i + 1] == file);
            }
        }
    }
}

/// A file that is found under one of several paths is one of the files.
pub proof fn lemma_find_first_is_member(files: Seq<FileView>, paths: Seq<Seq<char>>)
    ensures
        find_first(files, paths) matches Some(file) ==> files.contains(file),
    decreases paths.len(),
{
    if paths.len() > 0 {
        lemma_find_file_is_member(files, paths[0]);
        lemma_find_first_is_member(files, paths.drop_first());
    }
}

impl VirtualDir {
    /// The first file whose path is exactly `path`. Paths are compared as
    /// texts: `a//b` does not name the file `a/b`.
    pub fn get_file(&self, path: &String) -> (r: Option<&VirtualFile>)
        ensures
            r is Some <==> find_file(self@.files, path@) is Some,
            r matches Some(file) ==> Some(file@) == find_file(self@.files, path@),
    {
        let mut i: usize = 0;
        assert(self@.files.subrange(0, self.files.len() as int) =~= self@.files);
        while i < self.files.len()
            invariant
                i <= self.files.len(),
                find_file(self@.files, path@) == find_file(
                    self@.files.subrange(i as int, self.files.len() as int),
                    path@,
                ),
            decreases self.files.len() - i,
        {
            let ghost here = self@.files.subrange(i as int, self.files.len() as int);
            assert(here[0] == self.files[i as int]@);
            if self.files[i].path == *path {
                return Some(&self.files[i]);
            }
            assert(here.drop_first() =~= self@.files.subrange(i + 1, self.files.len() as int));
            i += 1;
        }
        None
    }
}

/// The file of `dir` that the first of `try_paths_in_order` to name one
/// names.
pub fn get_file_from_dir<'a>(dir: &'a VirtualDir, try_paths_in_order: &[String]) -> (r: Option<
    &'a VirtualFile,
>)
    ensures
        r is Some <==> find_first(dir@.files, try_paths_in_order.deep_view()) is Some,
        r matches Some(file) ==> Some(file@) == find_first(
            dir@.files,
            try_paths_in_order.deep_view(),
        ),
{
    let ghost paths = try_paths_in_order.deep_view();
    let mut i: usize = 0;
    assert(paths.subrange(0, paths.len() as int) =~= paths);
    while i < try_paths_in_order.len()
        invariant
            i <= try_paths_in_order.len(),
            paths == try_paths_in_order.deep_view(),
            find_first(dir@.files, paths) == find_first(
                dir@.files,
                paths.subrange(i as int, paths.len() as int),
            ),
        decreases try_paths_in_order.len() - i,
    {
        let ghost here = paths.subrange(i as int, paths.len() as int);
        assert(here[0] == try_paths_in_order[i as int]@);
        if let Some(file) = dir.get_file(&try_paths_in_order[i]) {
            return Some(file);
        }
        assert(here.drop_first() =~= paths.subrange(i + 1, paths.len() as int));
        i += 1;
    }
    None
}

} // verus!
