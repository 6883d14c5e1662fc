//! From the flat form back to the tables: every cluster of the flat form
//! is visited up to three times from an explicit stack.

use vstd::prelude::*;
use crate::cluster_table::ClusterTable;
use crate::dag::added;
use crate::error::TopDagError;
use crate::flat::{
    decode, decode_at, decode_child, finish, resolve, too_many, zeros_before, Decoded, Decoding,
    Flat, Resolved,
};
use crate::labels::LabelTable;
use crate::structs::{Cluster, MergeType};
use crate::tables::Tables;
use crate::uninitialized::Uninitialized;

verus! {

/// A cluster of the flat form on the work stack: its place in the flat
/// form, its merge type once it was visited, and its first child once
/// that is known.
pub struct Visit {
    pub index: usize,
    pub merge_type: Uninitialized<MergeType>,
    pub first_child: Uninitialized<usize>,
}

/// The visits that a cluster on the stack still has before it: three for
/// one that was not visited yet, two while its first child is open, one
/// while its second child is open.
pub open spec fn visits_left(visit: Visit) -> nat {
    if visit.merge_type.value is None {
        3
    } else if visit.first_child.value is None {
        2
    } else {
        1
    }
}

/// The visits that the clusters on the stack still have before them.
pub open spec fn work_left(stack: Seq<Visit>) -> nat
    decreases stack.len(),
{
    if stack.len() == 0 {
        0
    } else {
        work_left(stack.drop_last()) + visits_left(stack.last())
    }
}

/// What the decode comes to from here: the stack is worked off from its
/// top, and `ret` is what the last visit resolved.
pub open spec fn outcome(flat: Flat, stack: Seq<Visit>, state: Decoding, ret: usize) -> Option<Resolved>
    decreases stack.len(),
{
    if stack.len() == 0 {
        Some(Resolved { state, id: ret })
    } else {
        let top = stack.last();
        let rest = stack.drop_last();
        if top.merge_type.value is None {
            match decode_at(flat, top.index as nat, state) {
                None => None,
                Some(done) => outcome(flat, rest, done.state, done.id),
            }
        } else if top.first_child.value is None {
            match decode_child(flat, 2 * (top.index as nat) + 1, state) {
                None => None,
                Some(second) => {
                    let done = finish(flat, top.index as nat, second.state, ret, second.id);
                    outcome(flat, rest, done.state, done.id)
                },
            }
        } else {
            let done = finish(flat, top.index as nat, state, top.first_child.value->0, ret);
            outcome(flat, rest, done.state, done.id)
        }
    }
}

/// The stack fits the decode: every cluster on it was begun, a visited
/// one carries the merge type of the flat form, and a first child that is
/// known is an id of the tables.
pub open spec fn stack_fits(flat: Flat, stack: Seq<Visit>, state: Decoding) -> bool {
    forall|k: int|
        0 <= k < stack.len() ==> {
            let visit = #[trigger] stack[k];
            &&& visit.index < state.next
            &&& (visit.merge_type.value matches Some(shape) ==> visit.index < flat.merge_types.len()
                && shape == MergeType::of_code(flat.merge_types[visit.index as int] as nat))
            &&& (visit.first_child.value matches Some(id) ==> visit.merge_type.value is Some && id
                < flat.labels + state.clusters.len())
        }
}

/// Every id that the decode has given out is an id of the tables.
pub open spec fn ids_fit(flat: Flat, state: Decoding) -> bool {
    &&& state.ids.len() == flat.merge_types.len()
    &&& forall|j: int|
        0 <= j < state.ids.len() ==> ((#[trigger] state.ids[j]) matches Some(id) ==> id < flat.labels
            + state.clusters.len())
}

/// The number of false bits before each position of `structure`.
pub fn ranks(structure: &Vec<bool>) -> (rank: Vec<usize>)
    ensures
        rank@.len() == structure@.len(),
        forall|pos: int| 0 <= pos < rank@.len() ==> #[trigger] rank@[pos] == zeros_before(structure@, pos),
{
    let mut rank: Vec<usize> = Vec::new();
    let mut zeros: usize = 0;
    let mut pos: usize = 0;
    while pos < structure.len()
        invariant
            pos <= structure@.len(),
            rank@.len() == pos,
            zeros == zeros_before(structure@, pos as int),
            zeros <= pos,
            forall|p: int| 0 <= p < pos ==> #[trigger] rank@[p] == zeros_before(structure@, p),
        decreases structure@.len() - pos,
    {
        rank.push(zeros);
        if !structure[pos] {
            zeros += 1;
        }
        pos += 1;
    }
    rank
}

/// What the entry for the false bit at `pos` resolves to.
fn resolve_entry(
    pointer: &Vec<usize>,
    rank: &Vec<usize>,
    ids: &Vec<Option<usize>>,
    labels: usize,
    pos: usize,
    Ghost(flat): Ghost<Flat>,
    Ghost(state): Ghost<Decoding>,
) -> (found: Option<usize>)
    requires
        pos < rank@.len(),
        rank@[pos as int] == zeros_before(flat.structure, pos as int),
        flat.pointer == pointer@,
        flat.labels == labels,
        state.ids == ids@,
    ensures
        found == resolve(flat, pos as nat, state),
{
    let at = rank[pos];
    if at >= pointer.len() {
        None
    } else {
        let entry = pointer[at];
        if entry < labels {
            Some(entry)
        } else if entry - labels < ids.len() {
            ids[entry - labels]
        } else {
            None
        }
    }
}

/// What working off `visit` on top of `rest` comes to.
pub open spec fn outcome_over(flat: Flat, rest: Seq<Visit>, visit: Visit, state: Decoding, ret: usize) -> Option<
    Resolved,
> {
    if visit.merge_type.value is None {
        match decode_at(flat, visit.index as nat, state) {
            None => None,
            Some(done) => outcome(flat, rest, done.state, done.id),
        }
    } else if visit.first_child.value is None {
        match decode_child(flat, 2 * (visit.index as nat) + 1, state) {
            None => None,
            Some(second) => {
                let done = finish(flat, visit.index as nat, second.state, ret, second.id);
                outcome(flat, rest, done.state, done.id)
            },
        }
    } else {
        let done = finish(flat, visit.index as nat, state, visit.first_child.value->0, ret);
        outcome(flat, rest, done.state, done.id)
    }
}

/// A stack with one more visit on top comes to what that visit comes to
/// over the rest, and has the visits of both left.
proof fn lemma_pushed_visit(flat: Flat, rest: Seq<Visit>, visit: Visit, state: Decoding, ret: usize)
    ensures
        outcome(flat, rest.push(visit), state, ret) == outcome_over(flat, rest, visit, state, ret),
        work_left(rest.push(visit)) == work_left(rest) + visits_left(visit),
{
    assert(rest.push(visit).last() == visit);
    assert(rest.push(visit).drop_last() =~= rest);
}

/// A stack that is not empty is its top pushed on the rest.
proof fn lemma_popped_visit(flat: Flat, stack: Seq<Visit>, state: Decoding, ret: usize)
    requires
        stack.len() > 0,
    ensures
        outcome(flat, stack, state, ret) == outcome_over(
            flat,
            stack.drop_last(),
            stack.last(),
            state,
            ret,
        ),
        work_left(stack) == work_left(stack.drop_last()) + visits_left(stack.last()),
{
}

/// The stack machine of a decode: the cluster table that is filled, the
/// ids of the finished clusters, the number of the cluster that was begun
/// last, what the last visit resolved, and the clusters that wait.
pub struct Machine {
    pub table: ClusterTable,
    pub ids: Vec<Option<usize>>,
    pub global_index: usize,
    pub return_value: usize,
    pub workstack: Vec<Visit>,
    pub rank: Vec<usize>,
}

impl Machine {
    /// How far the decode has come.
    pub open spec fn state(&self) -> Decoding {
        Decoding { clusters: self.table@, ids: self.ids@, next: (self.global_index + 1) as nat }
    }

    /// The work that is left, in visits: three for every cluster that was
    /// not begun, and what the clusters on the stack have before them.
    pub open spec fn work(&self, flat: Flat) -> int {
        3 * (flat.merge_types.len() - (self.global_index + 1)) + work_left(self.workstack@)
    }

    /// The machine decodes `flat` towards `target`: its parts fit, and
    /// working off its stack comes to `target`.
    pub open spec fn runs(&self, flat: Flat, target: Option<Resolved>) -> bool {
        &&& flat.labels + flat.merge_types.len() <= usize::MAX
        &&& self.rank@.len() == flat.structure.len()
        &&& forall|pos: int|
            0 <= pos < self.rank@.len() ==> #[trigger] self.rank@[pos] == zeros_before(
                flat.structure,
                pos,
            )
        &&& self.table.wf()
        &&& self.table.label_count() == flat.labels
        &&& self.global_index + 1 <= flat.merge_types.len()
        &&& self.table@.len() + self.workstack@.len() <= self.global_index + 1
        &&& ids_fit(flat, self.state())
        &&& stack_fits(flat, self.workstack@, self.state())
        &&& (self.workstack@.len() == 0 || self.workstack@.last().merge_type.value is Some
            ==> self.return_value < flat.labels + self.table@.len())
        &&& (self.workstack@.len() == 0 ==> flat.labels <= self.return_value)
        &&& outcome(flat, self.workstack@, self.state(), self.return_value) == target
    }

    /// Begins the next cluster of the flat form above the cluster that
    /// waits for it.
    fn begin_child(&mut self, waiting: Visit, Ghost(flat): Ghost<Flat>, Ghost(rest): Ghost<Seq<Visit>>)
        requires
            old(self).workstack@ == rest,
            old(self).global_index < usize::MAX,
        ensures
            final(self).workstack@ == rest.push(waiting).push(
                Visit {
                    index: final(self).global_index,
                    merge_type: Uninitialized { value: None },
                    first_child: Uninitialized { value: None },
                },
            ),
            final(self).global_index == old(self).global_index + 1,
            final(self).table == old(self).table,
            final(self).ids == old(self).ids,
            final(self).rank == old(self).rank,
            final(self).return_value == old(self).return_value,
    {
        self.workstack.push(waiting);
        self.global_index += 1;
        self.workstack.push(
            Visit {
                index: self.global_index,
                merge_type: Uninitialized::new(),
                first_child: Uninitialized::new(),
            },
        );
    }

    /// Finishes a cluster: looks it up or adds it, and notes its id.
    fn finish_cluster(
        &mut self,
        index: usize,
        cluster: Cluster,
        Ghost(flat): Ghost<Flat>,
        Ghost(rest): Ghost<Seq<Visit>>,
    )
        requires
            old(self).workstack@ == rest,
            old(self).table.wf(),
            old(self).table.label_count() == flat.labels,
            flat.labels + flat.merge_types.len() <= usize::MAX,
            old(self).table@.len() + rest.len() + 1 <= old(self).global_index + 1 <= flat.merge_types.len(),
            index < flat.merge_types.len(),
            cluster.merge_type == MergeType::of_code(flat.merge_types[index as int] as nat),
            cluster.first_child < flat.labels + old(self).table@.len(),
            cluster.second_child < flat.labels + old(self).table@.len(),
            ids_fit(flat, old(self).state()),
            stack_fits(flat, rest, old(self).state()),
        ensures
            final(self).workstack@ == rest,
            final(self).global_index == old(self).global_index,
            final(self).rank == old(self).rank,
            final(self).table.wf(),
            final(self).table.label_count() == flat.labels,
            final(self).table@.len() + rest.len() <= final(self).global_index + 1,
            ids_fit(flat, final(self).state()),
            stack_fits(flat, rest, final(self).state()),
            flat.labels <= final(self).return_value < flat.labels + final(self).table@.len(),
            finish(flat, index as nat, old(self).state(), cluster.first_child, cluster.second_child)
                == (Resolved { state: final(self).state(), id: final(self).return_value }),
    {
        proof {
            self.table.lemma_wf();
        }
        let cluster_index = self.table.add_cluster(cluster);
        self.ids[index] = Some(cluster_index);
        self.return_value = cluster_index;
        proof {
            lemma_finished(flat, index as nat, old(self).state(), cluster, rest, self.table@, self.ids@);
        }
    }

    /// The first visit of a cluster: its merge type is read and its first
    /// child is begun or resolved.
    #[verifier::rlimit(30)]
    fn visit_first(
        &mut self,
        structure: &Vec<bool>,
        pointer: &Vec<usize>,
        merge_types: &Vec<usize>,
        visit: Visit,
        Ghost(flat): Ghost<Flat>,
        Ghost(target): Ghost<Option<Resolved>>,
        Ghost(before): Ghost<Machine>,
    ) -> (result: Result<(), TopDagError>)
        requires
            before.runs(flat, target),
            before.workstack@.len() > 0,
            before.workstack@.last() == visit,
            old(self).workstack@ == before.workstack@.drop_last(),
            old(self).table == before.table,
            old(self).ids == before.ids,
            old(self).rank == before.rank,
            old(self).global_index == before.global_index,
            old(self).return_value == before.return_value,
            visit.merge_type.value is None,
            flat.structure == structure@,
            flat.pointer == pointer@,
            flat.merge_types == merge_types@,
        ensures
            match result {
                Ok(()) => final(self).runs(flat, target) && final(self).work(flat) < before.work(flat),
                Err(e) => e == TopDagError::CorruptDecode && target is None,
            },
    {
        let ghost rest = self.workstack@;
        let ghost state = self.state();
        let index = visit.index;
        let mut merge_type = visit.merge_type;
        let first_child = visit.first_child;
        let half = structure.len() / 2;
        proof {
            lemma_popped_visit(flat, before.workstack@, state, self.return_value);
            lemma_rest_fits(flat, before.workstack@, state);
        }
        if index >= merge_types.len() || index >= structure.len() - half {
            proof {
                if index < flat.merge_types.len() {
                    assert(2 * (index as nat) >= flat.structure.len());
                    assert(decode_child(flat, 2 * (index as nat), state) is None);
                }
                assert(decode_at(flat, index as nat, state) is None);
            }
            return Err(TopDagError::CorruptDecode);
        }
        merge_type.set_value(MergeType::from_usize(merge_types[index]));
        let waiting = Visit { index, merge_type, first_child };
        if structure[2 * index] {
            if self.global_index + 1 >= merge_types.len() {
                proof {
                    assert(decode_child(flat, 2 * (index as nat), state) is None);
                    assert(decode_at(flat, index as nat, state) is None);
                }
                return Err(TopDagError::CorruptDecode);
            }
            self.begin_child(waiting, Ghost(flat), Ghost(rest));
            proof {
                let now = self.state();
                let begun = self.workstack@.last();
                lemma_pushed_visit(flat, rest, waiting, now, self.return_value);
                lemma_pushed_visit(flat, rest.push(waiting), begun, now, self.return_value);
                assert(decode_child(flat, 2 * (index as nat), state) == decode_at(
                    flat,
                    self.global_index as nat,
                    now,
                ));
                match decode_at(flat, self.global_index as nat, now) {
                    None => {},
                    Some(first) => {
                        lemma_pushed_visit(flat, rest, waiting, first.state, first.id);
                    },
                }
                lemma_begun_fits(flat, rest, waiting, begun, state, now);
            }
            Ok(())
        } else {
            match resolve_entry(
                pointer,
                &self.rank,
                &self.ids,
                self.table.labels(),
                2 * index,
                Ghost(flat),
                Ghost(state),
            ) {
                None => {
                    proof {
                        assert(decode_child(flat, 2 * (index as nat), state) is None);
                        assert(decode_at(flat, index as nat, state) is None);
                    }
                    Err(TopDagError::CorruptDecode)
                },
                Some(id) => {
                    self.return_value = id;
                    self.workstack.push(waiting);
                    proof {
                        lemma_pushed_visit(flat, rest, waiting, state, id);
                        assert(decode_child(flat, 2 * (index as nat), state) == Some(
                            Resolved { state, id },
                        ));
                        lemma_waiting_fits(flat, rest, waiting, state);
                    }
                    Ok(())
                },
            }
        }
    }

    /// The second visit of a cluster: its first child is known, its
    /// second is begun or resolved; if resolved, the cluster is finished.
    #[verifier::rlimit(30)]
    fn visit_second(
        &mut self,
        structure: &Vec<bool>,
        pointer: &Vec<usize>,
        visit: Visit,
        Ghost(flat): Ghost<Flat>,
        Ghost(target): Ghost<Option<Resolved>>,
        Ghost(before): Ghost<Machine>,
    ) -> (result: Result<(), TopDagError>)
        requires
            before.runs(flat, target),
            before.workstack@.len() > 0,
            before.workstack@.last() == visit,
            old(self).workstack@ == before.workstack@.drop_last(),
            old(self).table == before.table,
            old(self).ids == before.ids,
            old(self).rank == before.rank,
            old(self).global_index == before.global_index,
            old(self).return_value == before.return_value,
            visit.merge_type.value is Some,
            visit.first_child.value is None,
            flat.structure == structure@,
            flat.pointer == pointer@,
        ensures
            match result {
                Ok(()) => final(self).runs(flat, target) && final(self).work(flat) < before.work(flat),
                Err(e) => e == TopDagError::CorruptDecode && target is None,
            },
    {
        let ghost rest = self.workstack@;
        let ghost state = self.state();
        let index = visit.index;
        let merge_type = visit.merge_type;
        let mut first_child = visit.first_child;
        let first = self.return_value;
        first_child.set_value(first);
        let half = structure.len() / 2;
        proof {
            lemma_popped_visit(flat, before.workstack@, state, first);
            lemma_rest_fits(flat, before.workstack@, state);
        }
        if index >= half {
            proof {
                assert(2 * (index as nat) + 1 >= flat.structure.len());
                assert(decode_child(flat, 2 * (index as nat) + 1, state) is None);
            }
            return Err(TopDagError::CorruptDecode);
        }
        if structure[2 * index + 1] {
            if self.global_index + 1 >= self.ids.len() {
                proof {
                    assert(decode_child(flat, 2 * (index as nat) + 1, state) is None);
                }
                return Err(TopDagError::CorruptDecode);
            }
            let waiting = Visit { index, merge_type, first_child };
            self.begin_child(waiting, Ghost(flat), Ghost(rest));
            proof {
                let now = self.state();
                let begun = self.workstack@.last();
                lemma_pushed_visit(flat, rest, waiting, now, first);
                lemma_pushed_visit(flat, rest.push(waiting), begun, now, first);
                assert(decode_child(flat, 2 * (index as nat) + 1, state) == decode_at(
                    flat,
                    self.global_index as nat,
                    now,
                ));
                match decode_at(flat, self.global_index as nat, now) {
                    None => {},
                    Some(second) => {
                        lemma_pushed_visit(flat, rest, waiting, second.state, second.id);
                    },
                }
                lemma_begun_fits(flat, rest, waiting, begun, state, now);
            }
            Ok(())
        } else {
            match resolve_entry(
                pointer,
                &self.rank,
                &self.ids,
                self.table.labels(),
                2 * index + 1,
                Ghost(flat),
                Ghost(state),
            ) {
                None => {
                    proof {
                        assert(decode_child(flat, 2 * (index as nat) + 1, state) is None);
                    }
                    Err(TopDagError::CorruptDecode)
                },
                Some(second_child) => {
                    proof {
                        assert(decode_child(flat, 2 * (index as nat) + 1, state) == Some(
                            Resolved { state, id: second_child },
                        ));
                    }
                    let cluster = Cluster {
                        merge_type: merge_type.into_inner(),
                        first_child: first,
                        second_child,
                    };
                    self.finish_cluster(index, cluster, Ghost(flat), Ghost(rest));
                    Ok(())
                },
            }
        }
    }

    /// The third visit of a cluster: both children are known, the cluster
    /// is finished.
    fn visit_third(
        &mut self,
        visit: Visit,
        Ghost(flat): Ghost<Flat>,
        Ghost(target): Ghost<Option<Resolved>>,
        Ghost(before): Ghost<Machine>,
    )
        requires
            before.runs(flat, target),
            before.workstack@.len() > 0,
            before.workstack@.last() == visit,
            old(self).workstack@ == before.workstack@.drop_last(),
            old(self).table == before.table,
            old(self).ids == before.ids,
            old(self).rank == before.rank,
            old(self).global_index == before.global_index,
            old(self).return_value == before.return_value,
            visit.merge_type.value is Some,
            visit.first_child.value is Some,
        ensures
            final(self).runs(flat, target),
            final(self).work(flat) < before.work(flat),
    {
        let ghost rest = self.workstack@;
        let ghost state = self.state();
        let index = visit.index;
        proof {
            lemma_popped_visit(flat, before.workstack@, state, self.return_value);
            lemma_rest_fits(flat, before.workstack@, state);
        }
        let cluster = Cluster {
            merge_type: visit.merge_type.into_inner(),
            first_child: visit.first_child.into_inner(),
            second_child: self.return_value,
        };
        self.finish_cluster(index, cluster, Ghost(flat), Ghost(rest));
    }
}

/// What fits the stack fits the stack without its top, and its top.
proof fn lemma_rest_fits(flat: Flat, stack: Seq<Visit>, state: Decoding)
    requires
        stack.len() > 0,
        stack_fits(flat, stack, state),
    ensures
        stack_fits(flat, stack.drop_last(), state),
        stack.last().index < state.next,
        stack.last().merge_type.value matches Some(shape) ==> stack.last().index
            < flat.merge_types.len() && shape == MergeType::of_code(
            flat.merge_types[stack.last().index as int] as nat,
        ),
        stack.last().first_child.value matches Some(id) ==> stack.last().merge_type.value is Some
            && id < flat.labels + state.clusters.len(),
{
    let rest = stack.drop_last();
    assert forall|k: int| 0 <= k < rest.len() implies ({
        let v = #[trigger] rest[k];
        &&& v.index < state.next
        &&& (v.merge_type.value matches Some(shape) ==> v.index < flat.merge_types.len() && shape
            == MergeType::of_code(flat.merge_types[v.index as int] as nat))
        &&& (v.first_child.value matches Some(id) ==> v.merge_type.value is Some && id < flat.labels
            + state.clusters.len())
    }) by {
        assert(rest[k] == stack[k]);
    }
    assert(stack[stack.len() - 1] == stack.last());
}

/// The stack still fits with a visited cluster back on top.
proof fn lemma_waiting_fits(flat: Flat, rest: Seq<Visit>, waiting: Visit, state: Decoding)
    requires
        stack_fits(flat, rest, state),
        waiting.index < state.next,
        waiting.index < flat.merge_types.len(),
        waiting.merge_type.value == Some(
            MergeType::of_code(flat.merge_types[waiting.index as int] as nat),
        ),
        waiting.first_child.value matches Some(id) ==> id < flat.labels + state.clusters.len(),
    ensures
        stack_fits(flat, rest.push(waiting), state),
{
    let stack = rest.push(waiting);
    assert forall|k: int| 0 <= k < stack.len() implies ({
        let v = #[trigger] stack[k];
        &&& v.index < state.next
        &&& (v.merge_type.value matches Some(shape) ==> v.index < flat.merge_types.len() && shape
            == MergeType::of_code(flat.merge_types[v.index as int] as nat))
        &&& (v.first_child.value matches Some(id) ==> v.merge_type.value is Some && id < flat.labels
            + state.clusters.len())
    }) by {
        if k < rest.len() {
            assert(stack[k] == rest[k]);
        }
    }
}

/// The stack still fits with a visited cluster and, above it, the cluster
/// that was begun for it.
proof fn lemma_begun_fits(
    flat: Flat,
    rest: Seq<Visit>,
    waiting: Visit,
    begun: Visit,
    state: Decoding,
    now: Decoding,
)
    requires
        stack_fits(flat, rest, state),
        now == (Decoding { clusters: state.clusters, ids: state.ids, next: state.next + 1 }),
        waiting.index < state.next,
        waiting.index < flat.merge_types.len(),
        waiting.merge_type.value == Some(
            MergeType::of_code(flat.merge_types[waiting.index as int] as nat),
        ),
        waiting.first_child.value matches Some(id) ==> id < flat.labels + state.clusters.len(),
        begun.index == state.next,
        begun.merge_type.value is None,
        begun.first_child.value is None,
    ensures
        stack_fits(flat, rest.push(waiting).push(begun), now),
{
    let stack = rest.push(waiting).push(begun);
    assert forall|k: int| 0 <= k < stack.len() implies ({
        let v = #[trigger] stack[k];
        &&& v.index < now.next
        &&& (v.merge_type.value matches Some(shape) ==> v.index < flat.merge_types.len() && shape
            == MergeType::of_code(flat.merge_types[v.index as int] as nat))
        &&& (v.first_child.value matches Some(id) ==> v.merge_type.value is Some && id < flat.labels
            + now.clusters.len())
    }) by {
        if k < rest.len() {
            assert(stack[k] == rest[k]);
        }
    }
}

/// Rebuilds the tables from the flat form: the labels by position, and
/// the clusters in the order in which they are finished, each looked up
/// or added under the ids of its children.
///
/// It fails with `CapacityExceeded` if the labels and clusters are too
/// many, and else with `CorruptDecode` if the flat form does not decode.
pub fn detraverse(
    structure: &Vec<bool>,
    pointer: &Vec<usize>,
    merge_types: &Vec<usize>,
    labels: Vec<String>,
) -> (result: Result<(Tables, usize), TopDagError>)
    ensures
        ({
            let flat = Flat {
                structure: structure@,
                pointer: pointer@,
                merge_types: merge_types@,
                labels: labels@.len(),
            };
            &&& match result {
                Ok((tables, root)) => {
                    &&& tables.wf()
                    &&& tables@.labels == Seq::new(labels@.len(), |i: int| labels@[i]@)
                    &&& decode(flat) == Some(Decoded { clusters: tables@.clusters, root })
                    &&& root < tables@.ids()
                    &&& (root >= tables@.labels.len() || root + 1 == tables@.labels.len())
                },
                Err(e) => e == TopDagError::CapacityExceeded || e == TopDagError::CorruptDecode,
            }
            &&& (result matches Err(TopDagError::CapacityExceeded) <==> too_many(flat))
            &&& (result matches Err(TopDagError::CorruptDecode) <==> !too_many(flat) && decode(flat) is None)
        }),
{
    let ghost flat = Flat {
        structure: structure@,
        pointer: pointer@,
        merge_types: merge_types@,
        labels: labels@.len(),
    };
    let label_count = labels.len();
    let count = merge_types.len();
    if count > usize::MAX - label_count {
        return Err(TopDagError::CapacityExceeded);
    }
    if count == 0 {
        if label_count == 0 {
            return Err(TopDagError::CorruptDecode);
        }
        let tables = Tables::new(LabelTable::from_vec(labels));
        return Ok((tables, label_count - 1));
    }
    let mut ids: Vec<Option<usize>> = Vec::new();
    let mut filled: usize = 0;
    while filled < count
        invariant
            filled <= count,
            ids@.len() == filled,
            forall|j: int| 0 <= j < filled ==> (#[trigger] ids@[j]) is None,
        decreases count - filled,
    {
        ids.push(None);
        filled += 1;
    }
    let mut machine = Machine {
        table: ClusterTable::new(label_count),
        ids,
        global_index: 0,
        return_value: 0,
        workstack: Vec::new(),
        rank: ranks(structure),
    };
    let ghost start = machine.state();
    let ghost target = decode_at(flat, 0, start);
    let first = Visit { index: 0, merge_type: Uninitialized::new(), first_child: Uninitialized::new() };
    machine.workstack.push(first);
    proof {
        assert(start.ids =~= Seq::new(flat.merge_types.len(), |i: int| None::<usize>));
        assert(start.clusters =~= Seq::empty());
        lemma_pushed_visit(flat, Seq::<Visit>::empty(), first, start, 0);
        assert(Seq::<Visit>::empty().push(first) =~= machine.workstack@);
        match target {
            None => {},
            Some(done) => {
                assert(outcome(flat, Seq::<Visit>::empty(), done.state, done.id) == Some(done));
            },
        }
    }
    while machine.workstack.len() > 0
        invariant
            machine.runs(flat, target),
            flat.structure == structure@,
            flat.pointer == pointer@,
            flat.merge_types == merge_types@,
            flat.labels == label_count,
            label_count == labels@.len(),
            !too_many(flat),
            flat.merge_types.len() > 0,
            target == decode_at(
                flat,
                0,
                Decoding {
                    clusters: Seq::empty(),
                    ids: Seq::new(flat.merge_types.len(), |i: int| None::<usize>),
                    next: 1,
                },
            ),
        decreases machine.work(flat),
    {
        let ghost before = machine;
        let visit = machine.workstack.pop().unwrap();
        let step = if visit.merge_type.is_uninitialized() {
            machine.visit_first(
                structure,
                pointer,
                merge_types,
                visit,
                Ghost(flat),
                Ghost(target),
                Ghost(before),
            )
        } else if visit.first_child.is_uninitialized() {
            machine.visit_second(structure, pointer, visit, Ghost(flat), Ghost(target), Ghost(before))
        } else {
            machine.visit_third(visit, Ghost(flat), Ghost(target), Ghost(before));
            Ok(())
        };
        match step {
            Ok(()) => {},
            Err(e) => {
                return Err(e);
            },
        }
    }
    proof {
        assert(machine.workstack@ =~= Seq::<Visit>::empty());
    }
    let root = machine.return_value;
    let tables = Tables { labels: LabelTable::from_vec(labels), clusters: machine.table };
    Ok((tables, root))
}

/// After a cluster was finished the decode has moved on as `finish` says,
/// and the stack still fits.
proof fn lemma_finished(
    flat: Flat,
    index: nat,
    state: Decoding,
    cluster: Cluster,
    rest: Seq<Visit>,
    clusters: Seq<Cluster>,
    ids: Seq<Option<usize>>,
)
    requires
        index < flat.merge_types.len(),
        cluster.merge_type == MergeType::of_code(flat.merge_types[index as int] as nat),
        ids_fit(flat, state),
        stack_fits(flat, rest, state),
        clusters == added(state.clusters, cluster),
        clusters.contains(cluster),
        flat.labels + clusters.len() <= usize::MAX,
        ids == state.ids.update(index as int, Some((flat.labels + clusters.index_of(cluster)) as usize)),
    ensures
        finish(flat, index, state, cluster.first_child, cluster.second_child) == (Resolved {
            state: Decoding { clusters, ids, next: state.next },
            id: (flat.labels + clusters.index_of(cluster)) as usize,
        }),
        ids_fit(flat, Decoding { clusters, ids, next: state.next }),
        stack_fits(flat, rest, Decoding { clusters, ids, next: state.next }),
{
    let at = clusters.index_of(cluster);
    assert(clusters[at] == cluster);
    let after = Decoding { clusters, ids, next: state.next };
    assert forall|j: int| 0 <= j < after.ids.len() implies ((#[trigger] after.ids[j]) matches Some(id)
        ==> id < flat.labels + after.clusters.len()) by {
        if j != index {
            assert(after.ids[j] == state.ids[j]);
        }
    }
    assert forall|k: int| 0 <= k < rest.len() implies ({
        let v = #[trigger] rest[k];
        &&& v.index < after.next
        &&& (v.merge_type.value matches Some(shape) ==> v.index < flat.merge_types.len() && shape
            == MergeType::of_code(flat.merge_types[v.index as int] as nat))
        &&& (v.first_child.value matches Some(id) ==> v.merge_type.value is Some && id < flat.labels
            + after.clusters.len())
    }) by {}
}

} // verus!
