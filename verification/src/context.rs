//! The state that belongs to one note while it goes through the pipeline.

use vstd::prelude::*;
use crate::frontmatter::{mapping_entries, YamlView};

verus! {

/// The chain of notes from the root of an export down to the note being
/// expanded, each embedded by the one before it. It is never empty, and no
/// path stands in it twice.
#[derive(Debug, PartialEq, Eq)]
pub struct FileTree {
    paths: Vec<String>,
}

impl View for FileTree {
    type V = Seq<Seq<char>>;

    closed spec fn view(&self) -> Seq<Seq<char>> {
        Seq::new(self.paths@.len(), |i: int| self.paths@[i]@)
    }
}

/// No path stands twice in `paths`.
pub open spec fn distinct_paths(paths: Seq<Seq<char>>) -> bool {
    forall|i: int, j: int| 0 <= i < j < paths.len() ==> paths[i] != paths[j]
}

impl FileTree {
    #[verifier::type_invariant]
    spec fn well_formed(self) -> bool {
        self.paths@.len() >= 1 && distinct_paths(self@)
    }

    /// The tree of a root note.
    pub fn root(path: &str) -> (tree: FileTree)
        ensures
            tree@ == seq![path@],
    {
        let mut paths: Vec<String> = Vec::new();
        paths.push(path.to_owned());
        let tree = FileTree { paths };
        assert(tree@ =~= seq![path@]);
        tree
    }

    /// How many notes the chain holds: at least one, and no path twice.
    pub fn depth(&self) -> (n: usize)
        ensures
            n == self@.len(),
            n >= 1,
            distinct_paths(self@),
    {
        proof {
            use_type_invariant(self);
        }
        self.paths.len()
    }

    /// The note being expanded: the last of the chain.
    pub fn current(&self) -> (path: &String)
        ensures
            path@ == self@.last(),
    {
        proof {
            use_type_invariant(self);
        }
        &self.paths[self.paths.len() - 1]
    }

    /// The root of the export: the first of the chain.
    pub fn first(&self) -> (path: &String)
        ensures
            path@ == self@.first(),
    {
        proof {
            use_type_invariant(self);
        }
        &self.paths[0]
    }

    /// Whether `path` stands in the chain.
    pub fn contains(&self, path: &str) -> (found: bool)
        ensures
            found == self@.contains(path@),
    {
        let wanted = path.to_owned();
        let mut i: usize = 0;
        while i < self.paths.len()
            invariant
                i <= self.paths.len(),
                wanted@ == path@,
                forall|j: int| 0 <= j < i ==> self@[j] != path@,
            decreases self.paths.len() - i,
        {
            if self.paths[i] == wanted {
                assert(self@[i as int] == path@);
                return true;
            }
            i = i + 1;
        }
        false
    }

    /// The paths of the chain, root first.
    pub fn to_vec(&self) -> (paths: Vec<String>)
        ensures
            crate::events::strings_view(paths@) == self@,
    {
        let mut paths: Vec<String> = Vec::new();
        let mut i: usize = 0;
        while i < self.paths.len()
            invariant
                i <= self.paths.len(),
                paths.len() == i,
                forall|j: int| 0 <= j < i ==> paths@[j]@ == self.paths@[j]@,
            decreases self.paths.len() - i,
        {
            paths.push(self.paths[i].clone());
            i = i + 1;
        }
        assert(crate::events::strings_view(paths@) =~= self@);
        paths
    }

    /// The chain with `path` added at its end; `None` if `path` already
    /// stands in it.
    pub fn child(&self, path: &str) -> (tree: Option<FileTree>)
        ensures
            self@.contains(path@) <==> tree is None,
            tree matches Some(longer) ==> longer@ == self@.push(path@),
    {
        proof {
            use_type_invariant(self);
        }
        if self.contains(path) {
            return None;
        }
        let mut paths = self.to_vec();
        paths.push(path.to_owned());
        proof {
            let longer = Seq::new(paths@.len(), |i: int| paths@[i]@);
            assert(longer =~= self@.push(path@)) by {
                assert forall|j: int| 0 <= j < self@.len() implies longer[j] == self@[j] by {
                    assert(crate::events::strings_view(paths@.drop_last())[j] == self@[j]);
                }
            }
            assert forall|i: int, j: int| 0 <= i < j < longer.len() implies longer[i] != longer[j] by {
                if j == longer.len() - 1 {
                    assert(self@[i] == longer[i]);
                } else {
                    assert(self@[i] == longer[i] && self@[j] == longer[j]);
                }
            }
        }
        let longer = FileTree { paths };
        Some(longer)
    }
}

impl Clone for FileTree {
    fn clone(&self) -> (copy: FileTree)
        ensures
            copy@ == self@,
    {
        proof {
            use_type_invariant(self);
        }
        let paths = self.to_vec();
        proof {
            let copied = Seq::new(paths@.len(), |i: int| paths@[i]@);
            assert(copied =~= self@);
        }
        FileTree { paths }
    }
}

/// The state of one pass through the pipeline, for the root note or for one
/// embedded note. Postprocessors read it and may change it.
#[derive(Clone, Debug, PartialEq, Eq)]
pub struct Context {
    /// The chain of notes down to the one this context belongs to.
    pub file_tree: FileTree,
    /// Where the result is to be written. Only the root note's is used.
    pub destination: String,
    /// The frontmatter of the note this context belongs to.
    pub frontmatter: serde_yaml::Mapping,
}

impl Context {
    /// A context made of its parts.
    pub fn new(file_tree: FileTree, destination: String, frontmatter: serde_yaml::Mapping) -> (context:
        Context)
        ensures
            context.file_tree == file_tree,
            context.destination == destination,
            context.frontmatter == frontmatter,
    {
        Context { file_tree, destination, frontmatter }
    }

    /// This is the context of the note at the end of `tree`, bound for
    /// `destination`, with the frontmatter `entries`.
    pub open spec fn is_for(
        &self,
        tree: Seq<Seq<char>>,
        destination: Seq<char>,
        entries: Seq<(YamlView, YamlView)>,
    ) -> bool {
        &&& self.file_tree@ == tree
        &&& self.destination@ == destination
        &&& mapping_entries(self.frontmatter) == entries
    }

    /// The note this context belongs to.
    pub fn current_file(&self) -> (path: &String)
        ensures
            path@ == self.file_tree@.last(),
    {
        self.file_tree.current()
    }

    /// The root note of the export this context is part of.
    pub fn root_file(&self) -> (path: &String)
        ensures
            path@ == self.file_tree@.first(),
    {
        self.file_tree.first()
    }

    /// How deep the note is embedded: 1 for the root note.
    pub fn note_depth(&self) -> (depth: usize)
        ensures
            depth == self.file_tree@.len(),
    {
        self.file_tree.depth()
    }

    /// The chain of notes down to this one, root first.
    pub fn file_tree(&self) -> (paths: Vec<String>)
        ensures
            crate::events::strings_view(paths@) == self.file_tree@,
    {
        self.file_tree.to_vec()
    }
}

} // verus!
