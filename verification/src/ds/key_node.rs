//! The diff tree: for one channel (left-only, right-only or mismatched),
//! the set of positions at which that channel has content, shaped like the
//! documents being compared.

use vstd::prelude::*;

use crate::enums::{ValueType, ValueTypeV};
use crate::json::{JsonV, JsonVal};
use crate::render::{render_v, render_json};

verus! {

/// One channel's tree of differences.
///
/// `Nil` marks no content at or below a position; under a key it is the
/// marker for a whole one-sided key.  `Value` carries the two differing
/// values of the mismatched channel.  `Node` branches by object key or by
/// rendered array position; it is never empty, so `Nil` is the one
/// canonical empty tree.
#[derive(Debug, PartialEq)]
pub enum KeyNode {
    Nil,
    Value(JsonVal, JsonVal),
    Node(Vec<(String, KeyNode)>),
}

/// The mathematical shape of a diff tree.
#[verifier::ext_equal]
pub enum KeyNodeV {
    Nil,
    Value(JsonV, JsonV),
    Node(Seq<(Seq<char>, KeyNodeV)>),
}

impl KeyNode {
    pub open spec fn deep_view(&self) -> KeyNodeV
        decreases self, 1int,
    {
        match self {
            KeyNode::Nil => KeyNodeV::Nil,
            KeyNode::Value(a, b) => KeyNodeV::Value(a.deep_view(), b.deep_view()),
            KeyNode::Node(m) => KeyNodeV::Node(knode_views_of(m@)),
        }
    }
}

impl View for KeyNode {
    type V = KeyNodeV;

    open spec fn view(&self) -> KeyNodeV {
        self.deep_view()
    }
}

/// The views of the children of a branching node, in order.
pub open spec fn knode_views_of(s: Seq<(String, KeyNode)>) -> Seq<(Seq<char>, KeyNodeV)>
    decreases s, 0int,
{
    if s.len() == 0 {
        Seq::empty()
    } else {
        knode_views_of(s.drop_last()).push((s.last().0@, s.last().1.deep_view()))
    }
}

pub proof fn lemma_knode_views_of_len(s: Seq<(String, KeyNode)>)
    ensures
        knode_views_of(s).len() == s.len(),
    decreases s.len(),
{
    if s.len() > 0 {
        lemma_knode_views_of_len(s.drop_last());
    }
}

pub proof fn lemma_knode_views_of_index(s: Seq<(String, KeyNode)>, i: int)
    requires
        0 <= i < s.len(),
    ensures
        knode_views_of(s).len() == s.len(),
        knode_views_of(s)[i] == (s[i].0@, s[i].1.deep_view()),
    decreases s.len(),
{
    lemma_knode_views_of_len(s);
    if i < s.len() - 1 {
        lemma_knode_views_of_index(s.drop_last(), i);
    }
}

impl KeyNodeV {
    /// Well-formed: every branching node has at least one child and
    /// pairwise distinct keys.
    pub open spec fn wf(self) -> bool
        decreases self,
    {
        match self {
            KeyNodeV::Node(ps) => {
                &&& ps.len() > 0
                &&& forall|i: int, j: int|
                    0 <= i < j < ps.len() ==> (#[trigger] ps[i].0) != (#[trigger] ps[j].0)
                &&& forall|i: int| 0 <= i < ps.len() ==> (#[trigger] ps[i].1).wf()
            },
            _ => true,
        }
    }

    /// True of the one-sided channels: no position carries a value pair.
    pub open spec fn marker_only(self) -> bool
        decreases self,
    {
        match self {
            KeyNodeV::Nil => true,
            KeyNodeV::Value(_, _) => false,
            KeyNodeV::Node(ps) => forall|i: int|
                0 <= i < ps.len() ==> (#[trigger] ps[i].1).marker_only(),
        }
    }
}

/// How long a rendered leaf value may grow before it is cut; the cut text
/// gets a visible marker appended.
pub open spec fn spec_truncate(s: Seq<char>, m: nat) -> Seq<char> {
    if s.len() <= m {
        s
    } else {
        s.take(m as int) + "//SNIP//"@
    }
}

/// Cuts a rendered value to at most `max_chars` characters, appending a
/// visible marker when something was cut.
pub fn truncate(s: &str, max_chars: usize) -> (r: String)
    ensures
        r@ == spec_truncate(s@, max_chars as nat),
{
    let n = s.unicode_len();
    if n <= max_chars {
        String::from_str(s)
    } else {
        proof {
            reveal_strlit("//SNIP//");
        }
        let shorter = s.substring_char(0, max_chars);
        proof {
            assert(s@.subrange(0, max_chars as int) =~= s@.take(max_chars as int));
        }
        let mut out = String::from_str(shorter);
        out.append("//SNIP//");
        out
    }
}

/// The path of a child: the parent path, an arrow, and the child's key.
pub open spec fn join_key(prefix: Option<Seq<char>>, k: Seq<char>) -> Seq<char> {
    match prefix {
        Option::None => k,
        Option::Some(p) => p + "->"@ + k,
    }
}

/// The path at a leaf: empty at the root.
pub open spec fn prefix_str(prefix: Option<Seq<char>>) -> Seq<char> {
    match prefix {
        Option::None => Seq::empty(),
        Option::Some(p) => p,
    }
}

/// The flattened entries of one channel's tree, in traversal order: one
/// entry per marker or value leaf, each carrying its full key path, value
/// texts cut at `m` characters.
pub open spec fn aflat(t: KeyNodeV, prefix: Option<Seq<char>>, m: nat) -> Seq<ValueTypeV>
    decreases t, 1int,
{
    match t {
        KeyNodeV::Nil => match prefix {
            Option::Some(k) => seq![ValueTypeV::Key(k)],
            Option::None => Seq::empty(),
        },
        KeyNodeV::Value(a, b) => seq![
            ValueTypeV::Value {
                key: prefix_str(prefix),
                value_left: spec_truncate(render_v(a), m),
                value_right: spec_truncate(render_v(b), m),
            },
        ],
        KeyNodeV::Node(ps) => aflat_children(ps, prefix, m),
    }
}

/// The flattened entries of a branching node's children, in order.
pub open spec fn aflat_children(
    ps: Seq<(Seq<char>, KeyNodeV)>,
    prefix: Option<Seq<char>>,
    m: nat,
) -> Seq<ValueTypeV>
    decreases ps, 0int,
{
    if ps.len() == 0 {
        Seq::empty()
    } else {
        aflat_children(ps.drop_last(), prefix, m) + aflat(
            ps.last().1,
            Option::Some(join_key(prefix, ps.last().0)),
            m,
        )
    }
}

/// The views of a vector of flattened entries.
pub open spec fn entry_views(s: Seq<ValueType>) -> Seq<ValueTypeV> {
    s.map_values(|e: ValueType| e@)
}

/// The view of an optional path.
pub open spec fn opt_view(p: Option<String>) -> Option<Seq<char>> {
    match p {
        Option::None => Option::None,
        Option::Some(s) => Option::Some(s@),
    }
}

impl KeyNode {
    /// Collects the flattened entries of this tree into a vector.
    pub fn absolute_keys_to_vec(&self, max_display_length: Option<usize>) -> (r: Vec<ValueType>)
        ensures
            entry_views(r@) == aflat(
                self@,
                Option::None,
                spec_display_length(max_display_length),
            ),
    {
        let mut vec = Vec::new();
        proof {
            assert(entry_views(vec@) =~= Seq::<ValueTypeV>::empty());
        }
        self.absolute_keys(&mut vec, None, max_display_length);
        proof {
            let m = spec_display_length(max_display_length);
            assert(Seq::<ValueTypeV>::empty() + aflat(self@, Option::None, m) =~= aflat(
                self@,
                Option::None,
                m,
            ));
        }
        vec
    }

    /// Walks the tree depth first, pushing one entry per marker or value
    /// leaf, each under its full key path from the root.
    #[verifier::loop_isolation(false)]
    pub fn absolute_keys(
        &self,
        keys: &mut Vec<ValueType>,
        key_from_root: Option<String>,
        max_display_length: Option<usize>,
    )
        ensures
            entry_views(final(keys)@) == entry_views(old(keys)@) + aflat(
                self@,
                opt_view(key_from_root),
                spec_display_length(max_display_length),
            ),
        decreases self,
    {
        let ghost m = spec_display_length(max_display_length);
        let ghost pv = opt_view(key_from_root);
        let ghost base = entry_views(keys@);
        let max_len: usize = match &max_display_length {
            Option::Some(n) => *n,
            Option::None => 4000,
        };
        match self {
            KeyNode::Nil => {
                if let Some(key) = key_from_root {
                    keys.push(ValueType::new_key(key));
                    proof {
                        assert(entry_views(keys@) =~= base + aflat(self@, pv, m));
                    }
                } else {
                    proof {
                        assert(entry_views(keys@) =~= base + aflat(self@, pv, m));
                    }
                }
            },
            KeyNode::Value(a, b) => {
                let key = match key_from_root {
                    Option::Some(p) => p,
                    Option::None => String::new(),
                };
                let left_text = render_json(a);
                let right_text = render_json(b);
                let entry = ValueType::new_value(
                    key,
                    truncate(left_text.as_str(), max_len),
                    truncate(right_text.as_str(), max_len),
                );
                keys.push(entry);
                proof {
                    assert(entry_views(keys@) =~= base + aflat(self@, pv, m));
                }
            },
            KeyNode::Node(map) => {
                let ghost vs = knode_views_of(map@);
                proof {
                    lemma_knode_views_of_len(map@);
                    assert(vs.take(0) =~= Seq::<(Seq<char>, KeyNodeV)>::empty());
                    assert(base + aflat_children(vs.take(0), pv, m) =~= base);
                }
                let n = map.len();
                for i in 0..n
                    invariant
                        entry_views(keys@) == base + aflat_children(vs.take(i as int), pv, m),
                {
                    proof {
                        lemma_knode_views_of_index(map@, i as int);
                    }
                    let child_key: String = match &key_from_root {
                        Option::Some(p) => {
                            proof {
                                reveal_strlit("->");
                            }
                            p.clone().concat("->").concat(map[i].0.as_str())
                        },
                        Option::None => map[i].0.clone(),
                    };
                    proof {
                        assert(child_key@ == join_key(pv, vs[i as int].0));
                    }
                    map[i].1.absolute_keys(keys, Some(child_key), max_display_length);
                    proof {
                        assert(vs.take(i + 1).drop_last() =~= vs.take(i as int));
                        assert(vs.take(i + 1).last() == vs[i as int]);
                        assert(base + aflat_children(vs.take(i as int), pv, m) + aflat(
                            vs[i as int].1,
                            Option::Some(join_key(pv, vs[i as int].0)),
                            m,
                        ) =~= base + aflat_children(vs.take(i + 1), pv, m));
                    }
                }
                proof {
                    assert(vs.take(n as int) =~= vs);
                }
            },
        }
    }
}

/// The display length in force: the one asked for, or four thousand.
pub open spec fn spec_display_length(m: Option<usize>) -> nat {
    match m {
        Option::Some(n) => n as nat,
        Option::None => 4000,
    }
}

} // verus!
