//! The flat form of a Top DAG and what it decodes to.

use vstd::prelude::*;
use crate::dag::added;
use crate::structs::{Cluster, MergeType};

verus! {

/// The flat form as a mathematical value: two bits per cluster, the
/// entries that the false bits stand for, one merge type per cluster, and
/// the number of labels. The clusters are in the order in which a walk
/// from the root meets them first.
pub struct Flat {
    pub structure: Seq<bool>,
    pub pointer: Seq<usize>,
    pub merge_types: Seq<usize>,
    pub labels: nat,
}

/// The number of false bits before position `pos`.
pub open spec fn zeros_before(bits: Seq<bool>, pos: int) -> nat
    decreases pos,
{
    if pos <= 0 {
        0
    } else {
        zeros_before(bits, pos - 1) + if pos - 1 < bits.len() && !bits[pos - 1] {
            1nat
        } else {
            0nat
        }
    }
}

/// How far a decode has come: the clusters made so far, the id of every
/// cluster of the flat form that is finished, and the number of clusters
/// of the flat form that were begun.
pub struct Decoding {
    pub clusters: Seq<Cluster>,
    pub ids: Seq<Option<usize>>,
    pub next: nat,
}

/// A decode after one more item was resolved, and the id of the item.
pub struct Resolved {
    pub state: Decoding,
    pub id: usize,
}

/// The decode after the cluster of the two children under the merge type
/// of the flat form's cluster `index` was looked up or added, and its id.
pub open spec fn finish(flat: Flat, index: nat, state: Decoding, first: usize, second: usize) -> Resolved {
    let cluster = Cluster {
        merge_type: MergeType::of_code(flat.merge_types[index as int] as nat),
        first_child: first,
        second_child: second,
    };
    let clusters = added(state.clusters, cluster);
    let id = (flat.labels + clusters.index_of(cluster)) as usize;
    Resolved {
        state: Decoding { clusters, ids: state.ids.update(index as int, Some(id)), next: state.next },
        id,
    }
}

/// What the entry for the false bit at `pos` resolves to: a label, or the
/// id of a finished cluster; `None` if there is no such entry or it names
/// neither.
pub open spec fn resolve(flat: Flat, pos: nat, state: Decoding) -> Option<usize> {
    let rank = zeros_before(flat.structure, pos as int);
    if rank >= flat.pointer.len() {
        None
    } else {
        let entry = flat.pointer[rank as int];
        if entry < flat.labels {
            Some(entry)
        } else if entry - flat.labels < state.ids.len() {
            state.ids[entry - flat.labels]
        } else {
            None
        }
    }
}

/// Decodes the child at bit `pos`: a true bit begins the next cluster of
/// the flat form, a false bit is resolved by its entry.
pub open spec fn decode_child(flat: Flat, pos: nat, state: Decoding) -> Option<Resolved>
    decreases flat.merge_types.len() - pos / 2, 0nat,
{
    if pos >= flat.structure.len() {
        None
    } else if flat.structure[pos as int] {
        if pos / 2 < state.next < flat.merge_types.len() {
            decode_at(
                flat,
                state.next,
                Decoding { clusters: state.clusters, ids: state.ids, next: state.next + 1 },
            )
        } else {
            None
        }
    } else {
        match resolve(flat, pos, state) {
            Some(id) => Some(Resolved { state, id }),
            None => None,
        }
    }
}

/// Decodes cluster `index` of the flat form: its first child, then its
/// second, then the cluster of the two.
pub open spec fn decode_at(flat: Flat, index: nat, state: Decoding) -> Option<Resolved>
    decreases flat.merge_types.len() - index, 1nat,
{
    if index >= flat.merge_types.len() {
        None
    } else {
        match decode_child(flat, 2 * index, state) {
            None => None,
            Some(first) => match decode_child(flat, 2 * index + 1, first.state) {
                None => None,
                Some(second) => Some(finish(flat, index, second.state, first.id, second.id)),
            },
        }
    }
}

/// The clusters and the root of a decoded flat form.
pub struct Decoded {
    pub clusters: Seq<Cluster>,
    pub root: usize,
}

/// The clusters and the root that a flat form decodes to. Without
/// clusters the root is the last label.
pub open spec fn decode(flat: Flat) -> Option<Decoded> {
    if flat.merge_types.len() == 0 {
        if flat.labels == 0 {
            None
        } else {
            Some(Decoded { clusters: Seq::empty(), root: (flat.labels - 1) as usize })
        }
    } else {
        match decode_at(
            flat,
            0,
            Decoding {
                clusters: Seq::empty(),
                ids: Seq::new(flat.merge_types.len(), |i: int| None::<usize>),
                next: 1,
            },
        ) {
            None => None,
            Some(done) => Some(Decoded { clusters: done.state.clusters, root: done.id }),
        }
    }
}

/// The labels and clusters of the flat form are more than a `usize` can
/// number.
pub open spec fn too_many(flat: Flat) -> bool {
    flat.labels + flat.merge_types.len() > usize::MAX
}

} // verus!
