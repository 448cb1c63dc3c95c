//! The result of one comparison: three diff trees, one per channel.

use vstd::prelude::*;

use crate::ds::key_node::{aflat, entry_views, spec_display_length, KeyNode, KeyNodeV};
use crate::enums::{DiffType, ValueType, ValueTypeV};

verus! {

/// The outcome of comparing two documents: what only the left document
/// has, what only the right document has, and where both have differing
/// values.
#[derive(Debug, PartialEq)]
pub struct Mismatch {
    pub left_only_keys: KeyNode,
    pub right_only_keys: KeyNode,
    pub keys_in_both: KeyNode,
}

/// The mathematical shape of a comparison result.
#[verifier::ext_equal]
pub struct MismatchV {
    pub left_only_keys: KeyNodeV,
    pub right_only_keys: KeyNodeV,
    pub keys_in_both: KeyNodeV,
}

impl View for Mismatch {
    type V = MismatchV;

    open spec fn view(&self) -> MismatchV {
        MismatchV {
            left_only_keys: self.left_only_keys@,
            right_only_keys: self.right_only_keys@,
            keys_in_both: self.keys_in_both@,
        }
    }
}

impl MismatchV {
    /// No difference at all: all three channels are empty.
    pub open spec fn is_empty(self) -> bool {
        &&& self.left_only_keys is Nil
        &&& self.right_only_keys is Nil
        &&& self.keys_in_both is Nil
    }

    /// Every channel is a well-formed tree, and the one-sided channels
    /// carry markers only.
    pub open spec fn wf(self) -> bool {
        &&& self.left_only_keys.wf()
        &&& self.right_only_keys.wf()
        &&& self.keys_in_both.wf()
        &&& self.left_only_keys.marker_only()
        &&& self.right_only_keys.marker_only()
    }
}

/// The flattened entries of a whole comparison: the mismatched channel
/// first, then the left-only channel, then the right-only channel, each
/// entry tagged with its classification.
pub open spec fn spec_all_diffs(m: MismatchV, max_len: nat) -> Seq<(DiffType, ValueTypeV)> {
    aflat(m.keys_in_both, Option::None, max_len).map_values(
        |e: ValueTypeV| (DiffType::Mismatch, e),
    ) + aflat(m.left_only_keys, Option::None, max_len).map_values(
        |e: ValueTypeV| (DiffType::LeftExtra, e),
    ) + aflat(m.right_only_keys, Option::None, max_len).map_values(
        |e: ValueTypeV| (DiffType::RightExtra, e),
    )
}

/// The views of a vector of tagged entries.
pub open spec fn tagged_views(s: Seq<(DiffType, ValueType)>) -> Seq<(DiffType, ValueTypeV)> {
    s.map_values(|p: (DiffType, ValueType)| (p.0, p.1@))
}

impl Mismatch {
    pub fn new(l: KeyNode, r: KeyNode, u: KeyNode) -> (m: Mismatch)
        ensures
            m@ == (MismatchV { left_only_keys: l@, right_only_keys: r@, keys_in_both: u@ }),
    {
        Mismatch { left_only_keys: l, right_only_keys: r, keys_in_both: u }
    }

    /// The comparison result with no difference at all.
    pub fn empty() -> (m: Self)
        ensures
            m@.is_empty(),
            m@ == (MismatchV {
                left_only_keys: KeyNodeV::Nil,
                right_only_keys: KeyNodeV::Nil,
                keys_in_both: KeyNodeV::Nil,
            }),
    {
        Mismatch {
            left_only_keys: KeyNode::Nil,
            keys_in_both: KeyNode::Nil,
            right_only_keys: KeyNode::Nil,
        }
    }

    /// Whether the comparison found no difference.
    pub fn is_empty(&self) -> (r: bool)
        ensures
            r == self@.is_empty(),
    {
        matches!(self.left_only_keys, KeyNode::Nil) && matches!(
            self.right_only_keys,
            KeyNode::Nil,
        ) && matches!(self.keys_in_both, KeyNode::Nil)
    }

    /// All flattened entries, with the default display length.
    pub fn all_diffs(&self) -> (r: Vec<(DiffType, ValueType)>)
        ensures
            tagged_views(r@) == spec_all_diffs(self@, 4000),
    {
        self.all_diffs_trunc(None)
    }

    /// All flattened entries, rendered values cut at the given length.
    pub fn all_diffs_trunc(&self, truncation_length: Option<usize>) -> (r: Vec<
        (DiffType, ValueType),
    >)
        ensures
            tagged_views(r@) == spec_all_diffs(self@, spec_display_length(truncation_length)),
    {
        let ghost m = spec_display_length(truncation_length);
        let both = self.keys_in_both.absolute_keys_to_vec(truncation_length);
        let left = self.left_only_keys.absolute_keys_to_vec(truncation_length);
        let right = self.right_only_keys.absolute_keys_to_vec(truncation_length);
        let ghost both_entries = entry_views(both@);
        let ghost left_entries = entry_views(left@);
        let ghost right_entries = entry_views(right@);
        let mut out: Vec<(DiffType, ValueType)> = Vec::new();
        let mut rest = tag_entries(both, DiffType::Mismatch);
        out.append(&mut rest);
        let mut rest = tag_entries(left, DiffType::LeftExtra);
        out.append(&mut rest);
        let mut rest = tag_entries(right, DiffType::RightExtra);
        out.append(&mut rest);
        proof {
            assert(tagged_views(out@) =~= spec_all_diffs(self@, m)) by {
                assert(tagged_views(out@) =~= both_entries.map_values(
                    |e: ValueTypeV| (DiffType::Mismatch, e),
                ) + left_entries.map_values(|e: ValueTypeV| (DiffType::LeftExtra, e))
                    + right_entries.map_values(|e: ValueTypeV| (DiffType::RightExtra, e)));
            }
        }
        out
    }
}

/// Tags every entry of one channel with its classification.
fn tag_entries(entries: Vec<ValueType>, tag: DiffType) -> (r: Vec<(DiffType, ValueType)>)
    ensures
        tagged_views(r@) == entry_views(entries@).map_values(|e: ValueTypeV| (tag, e)),
{
    let ghost src = entries@;
    let mut entries = entries;
    let mut out: Vec<(DiffType, ValueType)> = Vec::new();
    let n = entries.len();
    proof {
        assert(entries@.take(0) =~= Seq::<ValueType>::empty());
    }
    let mut i: usize = 0;
    loop
        invariant
            0 <= i <= n,
            n == src.len(),
            entries@ == src,
            out@.len() == i,
            forall|j: int| 0 <= j < i ==> (#[trigger] out@[j]).0 == tag && out@[j].1@ == src[j]@,
        ensures
            out@.len() == n,
            forall|j: int| 0 <= j < n ==> (#[trigger] out@[j]).0 == tag && out@[j].1@ == src[j]@,
        decreases n - i,
    {
        if i >= n {
            break;
        }
        let e = entries[i].clone_entry();
        out.push((tag, e));
        i = i + 1;
    }
    proof {
        assert(tagged_views(out@) =~= entry_views(src).map_values(|e: ValueTypeV| (tag, e)));
    }
    out
}

} // verus!
