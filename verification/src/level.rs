//! The ordered hierarchy of segmentation levels.

use vstd::prelude::*;
use crate::error::SplitError;

verus! {

/// True when a level name begins with the reserved marker prefix `_`,
/// which makes the level hidden: it takes part in boundary computation but
/// never materializes as an explicit nesting depth of the output tree.
pub open spec fn is_hidden_name(name: Seq<char>) -> bool {
    name.len() > 0 && name[0] == '_'
}

/// One layer of the segmentation hierarchy, e.g. sentence or token.
#[derive(Clone, Debug)]
pub struct Level {
    /// The level's name, as declared by the model metadata.
    pub name: String,
    /// Whether the name carries the reserved marker prefix.
    pub hidden: bool,
}

impl Level {
    /// A level is well formed when its hidden flag agrees with its name.
    pub open spec fn wf(self) -> bool {
        self.hidden == is_hidden_name(self.name@)
    }

    /// Builds a level, deriving the hidden flag from the marker prefix.
    pub fn new(name: String) -> (r: Level)
        ensures
            r.wf(),
            r.name@ == name@,
    {
        broadcast use vstd::string::axiom_spec_iter, vstd::string::next_postcondition;

        let mut it = name.as_str().chars();
        let first = it.next();
        let hidden = match first {
            Some(c) => c == '_',
            None => false,
        };
        Level { name, hidden }
    }
}

/// The ordered sequence of levels declared by a model; the order fixes both
/// the model's output channel index and the recursion order of the tree
/// builder.
#[derive(Clone, Debug)]
pub struct SplitSequence {
    /// All levels, hidden ones included, in hierarchy order.
    pub levels: Vec<Level>,
}

/// The hidden flags of a level sequence, in order; the tree builder only
/// reads these and the per-channel probabilities.
pub open spec fn hidden_flags(levels: Seq<Level>) -> Seq<bool> {
    levels.map_values(|l: Level| l.hidden)
}

/// The names of the visible (non-hidden) levels, in order.
pub open spec fn visible_names(levels: Seq<Level>) -> Seq<Seq<char>>
    decreases levels.len(),
{
    if levels.len() == 0 {
        Seq::empty()
    } else if levels.last().hidden {
        visible_names(levels.drop_last())
    } else {
        visible_names(levels.drop_last()).push(levels.last().name@)
    }
}

/// The number of visible levels at positions `i` and beyond.
pub open spec fn visible_count_from(hidden: Seq<bool>, i: int) -> int
    decreases hidden.len() - i,
{
    if i < 0 || i >= hidden.len() {
        0
    } else {
        (if hidden[i] { 0int } else { 1int }) + visible_count_from(hidden, i + 1)
    }
}

impl SplitSequence {
    /// Every level's hidden flag agrees with its name.
    pub open spec fn wf(self) -> bool {
        forall|i: int| 0 <= i < self.levels@.len() ==> (#[trigger] self.levels@[i]).wf()
    }

    /// Builds a sequence from level names in hierarchy order; an empty
    /// descriptor is malformed, since the model must expose at least one
    /// output channel.
    pub fn new(names: Vec<String>) -> (r: Result<SplitSequence, SplitError>)
        ensures
            r is Ok <==> names@.len() > 0,
            r matches Ok(s) ==> {
                &&& s.wf()
                &&& s.levels@.len() == names@.len()
                &&& forall|i: int|
                    0 <= i < names@.len() ==> (#[trigger] s.levels@[i]).name@ == names@[i]@
            },
            r matches Err(e) ==> e == SplitError::MalformedModelMetadata,
    {
        if names.len() == 0 {
            return Err(SplitError::MalformedModelMetadata);
        }
        let mut levels: Vec<Level> = Vec::new();
        let mut i: usize = 0;
        while i < names.len()
            invariant
                i <= names@.len(),
                levels@.len() == i,
                forall|k: int| 0 <= k < i as int ==> (#[trigger] levels@[k]).wf(),
                forall|k: int|
                    0 <= k < i as int ==> (#[trigger] levels@[k]).name@ == names@[k]@,
            decreases names@.len() - i,
        {
            let l = Level::new(names[i].clone());
            levels.push(l);
            i = i + 1;
        }
        Ok(SplitSequence { levels })
    }

    /// The number of model output channels this sequence expects.
    pub fn channel_count(&self) -> (r: usize)
        ensures
            r == self.levels@.len(),
    {
        self.levels.len()
    }

    /// Checks the model's output channel count against the hierarchy
    /// descriptor; a mismatch means the metadata is malformed.
    pub fn check_channels(&self, n_outputs: usize) -> (r: Result<(), SplitError>)
        ensures
            r is Ok <==> n_outputs == self.levels@.len(),
            r matches Err(e) ==> e == SplitError::MalformedModelMetadata,
    {
        if n_outputs == self.levels.len() {
            Ok(())
        } else {
            Err(SplitError::MalformedModelMetadata)
        }
    }

    /// The hidden flag of every level, in hierarchy order.
    pub fn hidden_flags_vec(&self) -> (r: Vec<bool>)
        ensures
            r@ == hidden_flags(self.levels@),
    {
        let mut r: Vec<bool> = Vec::new();
        let mut i: usize = 0;
        while i < self.levels.len()
            invariant
                i <= self.levels@.len(),
                r@.len() == i,
                forall|k: int| 0 <= k < i as int ==> r@[k] == self.levels@[k].hidden,
            decreases self.levels@.len() - i,
        {
            r.push(self.levels[i].hidden);
            i = i + 1;
        }
        proof {
            assert(r@ =~= hidden_flags(self.levels@));
        }
        r
    }

    /// The visible level names, in hierarchy order.
    pub fn get_levels(&self) -> (r: Vec<String>)
        ensures
            r@.map_values(|s: String| s@) == visible_names(self.levels@),
    {
        let mut r: Vec<String> = Vec::new();
        let mut i: usize = 0;
        while i < self.levels.len()
            invariant
                i <= self.levels@.len(),
                r@.map_values(|s: String| s@) == visible_names(self.levels@.take(i as int)),
            decreases self.levels@.len() - i,
        {
            let ghost pre = self.levels@.take(i as int);
            if !self.levels[i].hidden {
                r.push(self.levels[i].name.clone());
            }
            i = i + 1;
            proof {
                let post = self.levels@.take(i as int);
                assert(post.drop_last() =~= pre);
                assert(post.last() == self.levels@[i - 1]);
                if self.levels@[i - 1].hidden {
                    assert(r@.map_values(|s: String| s@) =~= visible_names(post));
                } else {
                    assert(r@.map_values(|s: String| s@) =~= visible_names(pre).push(
                        self.levels@[i - 1].name@,
                    ));
                }
            }
        }
        proof {
            assert(self.levels@.take(self.levels@.len() as int) =~= self.levels@);
        }
        r
    }
}

} // verus!
