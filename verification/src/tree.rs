//! The recursive output structure of the splitter: a tree of spans whose
//! leaves are text fragments and whose internal nodes hold ordered children.

use vstd::prelude::*;

verus! {

broadcast use vstd::std_specs::vec::group_vec_axioms, vstd::seq::group_seq_axioms;

/// Copies the byte range `[a, b)` of `v` into a fresh vector.
pub(crate) fn copy_range(v: &Vec<u8>, a: usize, b: usize) -> (r: Vec<u8>)
    requires
        a <= b <= v@.len(),
    ensures
        r@ == v@.subrange(a as int, b as int),
{
    let mut r: Vec<u8> = Vec::new();
    let mut i: usize = a;
    while i < b
        invariant
            a <= i <= b <= v@.len(),
            r@ == v@.subrange(a as int, i as int),
        decreases b - i,
    {
        r.push(v[i]);
        i = i + 1;
        proof {
            assert(r@ =~= v@.subrange(a as int, i as int));
        }
    }
    r
}

/// One node of a split tree over a byte-encoded text.
///
/// A `Text` leaf holds an exact fragment of the input; a `Split` node holds
/// its own full fragment together with the ordered pieces it was carved
/// into. Concatenating the leaves of any well-formed node reproduces the
/// node's own fragment byte for byte.
#[derive(Debug)]
pub enum Split {
    /// A leaf fragment.
    Text(Vec<u8>),
    /// A span with its ordered child spans.
    Split(Vec<u8>, Vec<Split>),
}

/// The byte fragment a node stands for, leaf or not.
pub open spec fn full_text(s: Split) -> Seq<u8> {
    match s {
        Split::Text(t) => t@,
        Split::Split(t, _) => t@,
    }
}

/// The concatenation of all leaf fragments of a tree, left to right.
pub open spec fn leaf_concat(s: Split) -> Seq<u8>
    decreases s,
{
    match s {
        Split::Text(t) => t@,
        Split::Split(_, parts) => leaf_concat_list(parts@),
    }
}

/// The concatenation of all leaf fragments of a forest, left to right.
pub open spec fn leaf_concat_list(ps: Seq<Split>) -> Seq<u8>
    decreases ps,
{
    if ps.len() == 0 {
        Seq::empty()
    } else {
        leaf_concat_list(ps.drop_last()) + leaf_concat(ps.last())
    }
}

/// Well-formedness of a split tree: every node has at least one child and
/// carries exactly the concatenation of its children's fragments.
pub open spec fn wf(s: Split) -> bool
    decreases s,
{
    match s {
        Split::Text(_) => true,
        Split::Split(t, parts) => {
            &&& parts@.len() >= 1
            &&& t@ == leaf_concat_list(parts@)
            &&& forall|i: int| 0 <= i < parts@.len() ==> wf(#[trigger] parts@[i])
        },
    }
}

/// The nesting depth of a tree: leaves have depth zero, a node is one
/// deeper than its deepest child.
pub open spec fn depth(s: Split) -> int
    decreases s,
{
    match s {
        Split::Text(_) => 0,
        Split::Split(_, parts) => 1 + depth_list(parts@),
    }
}

/// The largest depth in a forest.
pub open spec fn depth_list(ps: Seq<Split>) -> int
    decreases ps,
{
    if ps.len() == 0 {
        0
    } else {
        let rest = depth_list(ps.drop_last());
        let last = depth(ps.last());
        if last >= rest {
            last
        } else {
            rest
        }
    }
}

/// The fragments `flatten` collects: leaf fragments stand for themselves,
/// and below a node each child contributes its own fragment when the
/// requested level is reached, or recurses with one level less.
pub open spec fn spec_flatten(s: Split, level: int) -> Seq<Seq<u8>>
    decreases s,
{
    match s {
        Split::Text(t) => seq![t@],
        Split::Split(_, parts) => spec_flatten_list(parts@, level),
    }
}

/// The fragments `flatten` collects from a forest.
pub open spec fn spec_flatten_list(ps: Seq<Split>, level: int) -> Seq<Seq<u8>>
    decreases ps,
{
    if ps.len() == 0 {
        Seq::empty()
    } else {
        spec_flatten_list(ps.drop_last(), level) + (if level == 0 {
            seq![full_text(ps.last())]
        } else {
            spec_flatten(ps.last(), level - 1)
        })
    }
}

/// Reconstruction: the leaf fragments of a well-formed split tree,
/// concatenated left to right, reproduce the tree's own text exactly —
/// no byte is created, dropped, or reordered.
pub proof fn lemma_reconstruction(s: Split)
    requires
        wf(s),
    ensures
        leaf_concat(s) == full_text(s),
{
}

impl Split {
    /// The byte fragment this node stands for.
    pub fn text(&self) -> (r: &Vec<u8>)
        ensures
            r@ == full_text(*self),
    {
        match self {
            Split::Text(t) => t,
            Split::Split(t, _) => t,
        }
    }

    /// The ordered children of a node; a leaf has none.
    pub fn parts(&self) -> (r: Option<&Vec<Split>>)
        ensures
            match *self {
                Split::Text(_) => r is None,
                Split::Split(_, parts) => r matches Some(p) && p@ == parts@,
            },
    {
        match self {
            Split::Text(_) => None,
            Split::Split(_, parts) => Some(parts),
        }
    }

    /// Collects the fragments found `level` node layers below this node's
    /// children: at level zero the children's own fragments, otherwise each
    /// child's `flatten` one level shallower. A leaf yields its fragment.
    pub fn flatten(&self, level: usize) -> (r: Vec<Vec<u8>>)
        ensures
            r@.map_values(|v: Vec<u8>| v@) == spec_flatten(*self, level as int),
        decreases *self,
    {
        match self {
            Split::Text(t) => {
                let mut r: Vec<Vec<u8>> = Vec::new();
                r.push(copy_range(t, 0, t.len()));
                proof {
                    assert(t@.subrange(0, t@.len() as int) =~= t@);
                    assert(r@.map_values(|v: Vec<u8>| v@) =~= seq![t@]);
                }
                r
            },
            Split::Split(_, parts) => {
                let mut r: Vec<Vec<u8>> = Vec::new();
                let mut i: usize = 0;
                while i < parts.len()
                    invariant
                        *self is Split,
                        (*self)->Split_1 == *parts,
                        i <= parts@.len(),
                        r@.map_values(|v: Vec<u8>| v@) == spec_flatten_list(
                            parts@.take(i as int),
                            level as int,
                        ),
                    decreases parts@.len() - i,
                {
                    let ghost pre = parts@.take(i as int);
                    let ghost rmap_pre = r@.map_values(|v: Vec<u8>| v@);
                    if level == 0 {
                        let t = parts[i].text();
                        r.push(copy_range(t, 0, t.len()));
                        proof {
                            let ft = full_text(parts@[i as int]);
                            assert(ft.subrange(0, ft.len() as int) =~= ft);
                            assert(r@.map_values(|v: Vec<u8>| v@) =~= rmap_pre.push(ft));
                        }
                    } else {
                        proof {
                            assert(decreases_to!(*self => *parts));
                            assert(decreases_to!(*parts => parts@));
                            assert(decreases_to!(parts@ => parts@[i as int]));
                            assert(decreases_to!(*self => parts@[i as int]));
                        }
                        let mut sub = parts[i].flatten(level - 1);
                        let ghost subm = sub@.map_values(|v: Vec<u8>| v@);
                        r.append(&mut sub);
                        proof {
                            assert(r@.map_values(|v: Vec<u8>| v@) =~= rmap_pre + subm);
                        }
                    }
                    i = i + 1;
                    proof {
                        let post = parts@.take(i as int);
                        assert(post.drop_last() =~= pre);
                        assert(post.last() == parts@[i - 1]);
                        assert(r@.map_values(|v: Vec<u8>| v@) =~= spec_flatten_list(
                            post,
                            level as int,
                        ));
                    }
                }
                proof {
                    assert(parts@.take(parts@.len() as int) =~= parts@);
                }
                r
            },
        }
    }
}

} // verus!
