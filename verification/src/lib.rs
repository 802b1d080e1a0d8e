pub mod navigator;
pub mod parser;

pub use navigator::Outcome;
pub use navigator::navigate;

use vstd::prelude::*;

verus! {

broadcast use vstd::std_specs::vec::axiom_vec_index_decreases;

/// Mathematical model of one tree node: a label and an ordered
/// sequence of child subtrees.
#[verifier::ext_equal]
pub struct TreeV {
    pub key: Seq<char>,
    pub children: Seq<TreeV>,
}

/// One node of a pick tree: a label (`key`) and its ordered children.
#[derive(Debug, PartialEq, Eq)]
pub struct Tree {
    pub key: String,
    pub children: Vec<Tree>,
}

impl View for Tree {
    type V = TreeV;

    open spec fn view(&self) -> TreeV
        decreases self,
    {
        TreeV {
            key: self.key@,
            children: Seq::new(
                self.children@.len(),
                |i: int|
                    if 0 <= i < self.children@.len() {
                        self.children[i]@
                    } else {
                        TreeV { key: Seq::empty(), children: Seq::empty() }
                    },
            ),
        }
    }
}

impl Tree {
    pub fn new(key: String) -> (t: Self)
        ensures
            t@ == (TreeV { key: key@, children: Seq::<TreeV>::empty() }),
    {
        let t = Tree { key, children: Vec::new() };
        proof {
            assert(t@.children =~= Seq::<TreeV>::empty());
        }
        t
    }
}

} // verus!
