//! The unified id space: the labels, and behind them the clusters.

use vstd::prelude::*;
use crate::cluster_table::ClusterTable;
use crate::dag::Dag;
use crate::labels::LabelTable;

verus! {

/// The label table and the cluster table of one build.
pub struct Tables {
    pub labels: LabelTable,
    pub clusters: ClusterTable,
}

impl View for Tables {
    type V = Dag;

    open spec fn view(&self) -> Dag {
        Dag { labels: self.labels@, clusters: self.clusters@ }
    }
}

impl Tables {
    /// The cluster table is consistent and its ids start behind the labels.
    pub open spec fn wf(&self) -> bool {
        &&& self.clusters.wf()
        &&& self.clusters.label_count() == self.labels@.len()
    }

    /// Consistent tables are a well-formed table without duplicates whose
    /// ids fit.
    pub proof fn lemma_wf(&self)
        requires
            self.wf(),
        ensures
            self@.wf(),
            self@.canonical(),
            self@.ids() <= usize::MAX,
            self@.ids() == self.clusters.next_id(),
    {
        self.clusters.lemma_wf();
    }

    /// The given labels and no cluster.
    pub fn new(labels: LabelTable) -> (tables: Tables)
        ensures
            tables.wf(),
            tables@ == (Dag { labels: labels@, clusters: Seq::empty() }),
    {
        let count = labels.len();
        Tables { labels, clusters: ClusterTable::new(count) }
    }
}

} // verus!
