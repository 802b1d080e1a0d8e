use vstd::prelude::*;
use crate::Tree;
use crate::TreeV;

verus! {

/// Mathematical model of a navigation outcome.
pub enum OutcomeV {
    EmptyTree,
    Completed(Seq<char>),
    Cancelled,
}

/// How one descent through a pick tree ends: the tree had nothing to pick
/// from, a leaf was reached, or the user cancelled a prompt.
#[derive(Debug, PartialEq, Eq)]
pub enum Outcome {
    EmptyTree,
    Completed(String),
    Cancelled,
}

impl View for Outcome {
    type V = OutcomeV;

    open spec fn view(&self) -> OutcomeV {
        match self {
            Outcome::EmptyTree => OutcomeV::EmptyTree,
            Outcome::Completed(s) => OutcomeV::Completed(s@),
            Outcome::Cancelled => OutcomeV::Cancelled,
        }
    }
}

/// One descent, one step per choice: a leaf completes with its label; at a
/// node with children, the next choice picks a child, and a missing or
/// out-of-range choice stands for a cancelled prompt.
pub open spec fn descend_spec(t: TreeV, choices: Seq<usize>) -> OutcomeV
    decreases choices.len(),
{
    if t.children.len() == 0 {
        OutcomeV::Completed(t.key)
    } else if choices.len() == 0 {
        OutcomeV::Cancelled
    } else if (choices[0] as int) < t.children.len() {
        descend_spec(t.children[choices[0] as int], choices.drop_first())
    } else {
        OutcomeV::Cancelled
    }
}

/// What a whole navigation pass yields: a root with no children is the
/// empty-tree outcome, before any choice is consulted; otherwise the
/// descent runs from the root.
pub open spec fn navigate_spec(t: TreeV, choices: Seq<usize>) -> OutcomeV {
    if t.children.len() == 0 {
        OutcomeV::EmptyTree
    } else {
        descend_spec(t, choices)
    }
}

/// Drives one full descent of `root` under a decided sequence of choices:
/// `choices[k]` answers the k-th prompt with a child index; a missing or
/// out-of-range answer stands for a cancelled prompt.
pub fn navigate(root: &Tree, choices: &Vec<usize>) -> (o: Outcome)
    ensures
        o@ == navigate_spec(root@, choices@),
{
    if root.children.len() == 0 {
        return Outcome::EmptyTree;
    }
    let mut t: &Tree = root;
    let mut i: usize = 0;
    proof {
        assert(choices@.skip(0) =~= choices@);
    }
    while t.children.len() != 0
        invariant
            root@.children.len() > 0,
            i <= choices@.len(),
            descend_spec(t@, choices@.skip(i as int)) == descend_spec(root@, choices@),
        decreases choices@.len() - i,
    {
        if i == choices.len() {
            proof {
                assert(choices@.skip(i as int) =~= Seq::<usize>::empty());
            }
            return Outcome::Cancelled;
        }
        let c = choices[i];
        proof {
            assert(choices@.skip(i as int)[0] == choices@[i as int]);
            assert(choices@.skip(i as int).drop_first() =~= choices@.skip(i as int + 1));
        }
        if c < t.children.len() {
            t = &t.children[c];
            i = i + 1;
        } else {
            return Outcome::Cancelled;
        }
    }
    Outcome::Completed(t.key.clone())
}

impl Tree {
    /// The ordered list of this node's children's labels: what one prompt
    /// offers the user to pick from.
    pub fn child_labels(&self) -> (labels: Vec<String>)
        ensures
            labels@.len() == self@.children.len(),
            forall|i: int| 0 <= i < labels@.len() ==> labels@[i]@ == self@.children[i].key,
    {
        let mut labels: Vec<String> = Vec::new();
        let mut i: usize = 0;
        while i < self.children.len()
            invariant
                i <= self.children.len(),
                labels@.len() == i,
                forall|j: int| 0 <= j < i ==> labels@[j]@ == self@.children[j].key,
            decreases self.children.len() - i,
        {
            proof {
                assert(self@.children[i as int] == self.children@[i as int]@);
            }
            labels.push(self.children[i].key.clone());
            i = i + 1;
        }
        labels
    }
}

/// Navigation is idempotent: a fixed tree and a fixed sequence of choice
/// indices always yield one and the same outcome.
pub proof fn lemma_navigation_deterministic(t1: TreeV, t2: TreeV, c1: Seq<usize>, c2: Seq<usize>)
    requires
        t1 == t2,
        c1 == c2,
    ensures
        navigate_spec(t1, c1) == navigate_spec(t2, c2),
{
}

/// A root with zero children always yields the empty-tree outcome, and no
/// choice is ever consulted: the outcome is the same under every choice
/// sequence.
pub proof fn lemma_empty_tree(t: TreeV, c1: Seq<usize>, c2: Seq<usize>)
    requires
        t.children.len() == 0,
    ensures
        navigate_spec(t, c1) == OutcomeV::EmptyTree,
        navigate_spec(t, c1) == navigate_spec(t, c2),
{
}

} // verus!

