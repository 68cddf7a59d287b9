//! The tree that a serving peer hands out for a digest.

use vstd::prelude::*;
use vstd::std_specs::cmp::PartialEqSpecImpl;

verus! {

/// What a client is told about a node: names, digests and sizes, never host
/// paths.
#[derive(Debug)]
pub enum LookupDirOrFile {
    Dir { name: String, children: Vec<LookupDirOrFile> },
    File { name: String, md5: String, size: usize },
}

/// The mathematical value of a [`LookupDirOrFile`].
pub enum LookupTree {
    Dir { name: Seq<char>, children: Seq<LookupTree> },
    File { name: Seq<char>, md5: Seq<char>, size: nat },
}

/// The value of a lookup tree, node by node.
pub open spec fn tree_view(tree: LookupDirOrFile) -> LookupTree
    decreases tree,
{
    match tree {
        LookupDirOrFile::Dir { name, children } => LookupTree::Dir {
            name: name@,
            children: forest_view(children@),
        },
        LookupDirOrFile::File { name, md5, size } => LookupTree::File {
            name: name@,
            md5: md5@,
            size: size as nat,
        },
    }
}

/// The values of a list of lookup trees, in order.
pub open spec fn forest_view(trees: Seq<LookupDirOrFile>) -> Seq<LookupTree>
    decreases trees,
{
    if trees.len() == 0 {
        Seq::empty()
    } else {
        forest_view(trees.drop_last()).push(tree_view(trees.last()))
    }
}

/// A forest's value has one entry per tree: that tree's own value.
pub proof fn lemma_forest_view(trees: Seq<LookupDirOrFile>)
    ensures
        forest_view(trees).len() == trees.len(),
        forall|i: int| 0 <= i < trees.len() ==> #[trigger] forest_view(trees)[i] == tree_view(trees[i]),
    decreases trees.len(),
{
    if trees.len() > 0 {
        lemma_forest_view(trees.drop_last());
    }
}

impl View for LookupDirOrFile {
    type V = LookupTree;

    open spec fn view(&self) -> LookupTree {
        tree_view(*self)
    }
}

impl LookupDirOrFile {
    /// How the view of a directory relates to the views of its children.
    pub proof fn lemma_view_dir(self)
        requires
            self is Dir,
        ensures
            self@ is Dir,
            self@->Dir_name == self->Dir_name@,
            self@->children.len() == self->children@.len(),
            forall|i: int|
                0 <= i < self->children@.len() ==> #[trigger] self@->children[i]
                    == self->children@[i]@,
    {
        lemma_forest_view(self->children@);
    }
}

impl Clone for LookupDirOrFile {
    fn clone(&self) -> (copy: Self)
        ensures
            copy@ == self@,
        decreases self,
    {
        match self {
            LookupDirOrFile::Dir { name, children } => {
                let mut copies: Vec<LookupDirOrFile> = Vec::new();
                let mut i: usize = 0;
                while i < children.len()
                    invariant
                        i <= children.len(),
                        self is Dir,
                        self->children == *children,
                        copies@.len() == i,
                        forall|j: int| 0 <= j < i ==> (#[trigger] copies@[j])@ == children@[j]@,
                    decreases children.len() - i,
                {
                    let copy = children[i].clone();
                    copies.push(copy);
                    i = i + 1;
                }
                let copy = LookupDirOrFile::Dir { name: name.clone(), children: copies };
                proof {
                    self.lemma_view_dir();
                    copy.lemma_view_dir();
                    assert(copy@->children =~= self@->children);
                }
                copy
            },
            LookupDirOrFile::File { name, md5, size } => LookupDirOrFile::File {
                name: name.clone(),
                md5: md5.clone(),
                size: *size,
            },
        }
    }
}

/// Structural equality over every field, child order included.
impl PartialEq for LookupDirOrFile {
    fn eq(&self, other: &LookupDirOrFile) -> (equal: bool)
        decreases self,
    {
        match self {
            LookupDirOrFile::Dir { name: n1, children: c1 } => match other {
                LookupDirOrFile::Dir { name: n2, children: c2 } => {
                    proof {
                        self.lemma_view_dir();
                        other.lemma_view_dir();
                    }
                    if !(*n1 == *n2) || c1.len() != c2.len() {
                        return false;
                    }
                    let mut i: usize = 0;
                    while i < c1.len()
                        invariant
                            i <= c1.len(),
                            c1.len() == c2.len(),
                            self is Dir,
                            self->children == *c1,
                            self@->children.len() == c1@.len(),
                            other@->children.len() == c2@.len(),
                            forall|j: int|
                                0 <= j < c1@.len() ==> #[trigger] self@->children[j] == c1@[j]@,
                            forall|j: int|
                                0 <= j < c2@.len() ==> #[trigger] other@->children[j] == c2@[j]@,
                            forall|j: int| 0 <= j < i ==> c1@[j]@ == c2@[j]@,
                        decreases c1.len() - i,
                    {
                        if !c1[i].eq(&c2[i]) {
                            assert(self@->children[i as int] != other@->children[i as int]);
                            return false;
                        }
                        i = i + 1;
                    }
                    assert(self@->children =~= other@->children);
                    true
                },
                LookupDirOrFile::File { .. } => false,
            },
            LookupDirOrFile::File { name: n1, md5: m1, size: s1 } => match other {
                LookupDirOrFile::Dir { .. } => false,
                LookupDirOrFile::File { name: n2, md5: m2, size: s2 } => {
                    *n1 == *n2 && *m1 == *m2 && *s1 == *s2
                },
            },
        }
    }
}

impl PartialEqSpecImpl for LookupDirOrFile {
    open spec fn obeys_eq_spec() -> bool {
        true
    }

    open spec fn eq_spec(&self, other: &LookupDirOrFile) -> bool {
        self@ == other@
    }
}

} // verus!
