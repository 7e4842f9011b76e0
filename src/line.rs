use std::path::PathBuf;
use vstd::prelude::*;

use crate::key_codec::{index_to_char, key_of};

verus! {

#[verifier::external_type_specification]
#[verifier::external_body]
pub struct ExPathBuf(PathBuf);

/// What a line shows.
#[derive(Debug)]
pub enum LineType {
    File { name: String },
    /// `unlisted` counts the entries of the directory that have no line.
    Dir { name: String, unlisted: usize },
    /// Stands for elided entries; it has no name and is never selected.
    Pruning { unlisted: usize },
}

/// One line of a flattened tree.
#[derive(Debug)]
pub struct TreeLine {
    /// For each depth above this line, whether a later sibling at that depth
    /// still follows, so that a vertical connector is drawn there.
    pub left_branchs: Box<[bool]>,
    pub depth: u16,
    pub key: String,
    pub path: PathBuf,
    pub content: LineType,
    /// The metadata of `path` could not be read when the line was made.
    pub has_error: bool,
}

/// The name shown for `content`, none for a pruning line.
pub open spec fn content_name(content: LineType) -> Option<Seq<char>> {
    match content {
        LineType::File { name } => Some(name@),
        LineType::Dir { name, .. } => Some(name@),
        LineType::Pruning { .. } => None,
    }
}

impl TreeLine {
    /// One connector flag for each depth above the line.
    pub open spec fn wf(&self) -> bool {
        self.left_branchs@.len() == self.depth
    }

    pub open spec fn is_pruning(&self) -> bool {
        self.content is Pruning
    }

    pub open spec fn name_view(&self) -> Option<Seq<char>> {
        content_name(self.content)
    }

    /// Makes the line of `path` at `depth`, named `file_name` (or `???` when
    /// the path has no final component). `metadata_is_dir` is what the file
    /// system said of the path: whether it is a directory, or `None` when its
    /// metadata could not be read, in which case the line is a file marked
    /// with an error.
    pub fn from_name(
        path: PathBuf,
        depth: u16,
        file_name: Option<String>,
        metadata_is_dir: Option<bool>,
    ) -> (r: TreeLine)
        ensures
            r.wf(),
            r.depth == depth,
            forall|i: int| 0 <= i < depth ==> !r.left_branchs@[i],
            r.key@ == Seq::<char>::empty(),
            r.path == path,
            r.has_error == (metadata_is_dir is None),
            (r.content is Dir) == (metadata_is_dir == Some(true)),
            !r.is_pruning(),
            r.content is Dir ==> r.content->Dir_unlisted == 0,
            r.name_view() == Some(
                match file_name {
                    Some(n) => n@,
                    None => "???"@,
                },
            ),
    {
        let left_branchs = boxed_flags(vec![false; depth as usize]);
        let name = match file_name {
            Some(n) => n,
            None => "???".to_owned(),
        };
        proof {
            reveal_strlit("???");
        }
        let mut has_error = false;
        let content = match metadata_is_dir {
            Some(true) => LineType::Dir { name, unlisted: 0 },
            Some(false) => LineType::File { name },
            None => {
                has_error = true;
                LineType::File { name }
            },
        };
        TreeLine { left_branchs, depth, key: String::new(), path, content, has_error }
    }

    /// Makes the line of `path` at `depth`, named after the path's final
    /// component. `metadata_is_dir` is what the file system said of the path,
    /// `None` when its metadata could not be read.
    pub fn create(path: PathBuf, depth: u16, metadata_is_dir: Option<bool>) -> (r: TreeLine)
        ensures
            r.wf(),
            r.depth == depth,
            forall|i: int| 0 <= i < depth ==> !r.left_branchs@[i],
            r.key@ == Seq::<char>::empty(),
            r.path == path,
            r.has_error == (metadata_is_dir is None),
            (r.content is Dir) == (metadata_is_dir == Some(true)),
            !r.is_pruning(),
            r.content is Dir ==> r.content->Dir_unlisted == 0,
            metadata_is_dir is None ==> r.has_error && r.content is File,
    {
        let file_name = final_component(&path);
        TreeLine::from_name(path, depth, file_name, metadata_is_dir)
    }

    pub fn is_dir(&self) -> (r: bool)
        ensures
            r == (self.content is Dir),
    {
        match &self.content {
            LineType::Dir { .. } => true,
            _ => false,
        }
    }

    /// Appends to the key one character for each level `0..depth`, taken
    /// from the ancestor ranks `v[1..=depth]`.
    pub fn fill_key(&mut self, v: &Vec<usize>, depth: usize)
        requires
            depth < v@.len(),
        ensures
            final(self).key@ == old(self).key@ + key_of(v@, depth as int),
            final(self).left_branchs == old(self).left_branchs,
            final(self).depth == old(self).depth,
            final(self).path == old(self).path,
            final(self).content == old(self).content,
            final(self).has_error == old(self).has_error,
    {
        let ghost start = self.key@;
        for i in 0..depth
            invariant
                depth < v@.len(),
                self.key@ == start + key_of(v@, i as int),
                self.left_branchs == old(self).left_branchs,
                self.depth == old(self).depth,
                self.path == old(self).path,
                self.content == old(self).content,
                self.has_error == old(self).has_error,
        {
            push_char(&mut self.key, index_to_char(v[i + 1]));
            assert(self.key@ =~= start + key_of(v@, i + 1));
        }
    }

    pub fn name(&self) -> (r: Option<&str>)
        ensures
            r is None <==> self.is_pruning(),
            r matches Some(s) ==> self.name_view() == Some(s@),
    {
        match &self.content {
            LineType::Dir { name, .. } => Some(name.as_str()),
            LineType::File { name } => Some(name.as_str()),
            _ => None,
        }
    }
}

/// Relies on `PathBuf::file_name`: the final component of the path, if any,
/// converted lossily to a `String`.
#[verifier::external_body]
fn final_component(path: &PathBuf) -> (r: Option<String>) {
    match path.file_name() {
        Some(s) => Some(s.to_string_lossy().into_owned()),
        None => None,
    }
}

/// Relies on `Vec::into_boxed_slice`: the same elements, in a boxed slice.
#[verifier::external_body]
fn boxed_flags(v: Vec<bool>) -> (r: Box<[bool]>)
    ensures
        r@ == v@,
{
    v.into_boxed_slice()
}

/// Relies on `String::push`: appends one character.
#[verifier::external_body]
fn push_char(s: &mut String, c: char)
    ensures
        final(s)@ == old(s)@.push(c),
{
    s.push(c)
}

} // verus!
