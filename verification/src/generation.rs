use crate::graph::Graph;
use crate::graph::GraphView;
use crate::graph::NodeIndex;
use vstd::prelude::*;

verus! {

/// The form from which an empty graph is made.
pub struct EmptyGraphGenerator {
    pub name: String,
    pub directed: bool,
    pub weighted: bool,
}

impl EmptyGraphGenerator {
    pub fn name(&self) -> (s: &'static str)
        ensures
            s@ == "Empty Graph"@,
    {
        "Empty Graph"
    }

    /// Makes the graph that the form describes and clears the form.
    pub fn gen_graph(&mut self) -> (graph: Graph)
        ensures
            graph@ == (GraphView {
                name: old(self).name@,
                nodes: Seq::empty(),
                next_index: NodeIndex(0),
                is_directed: old(self).directed,
                is_weighted: old(self).weighted,
            }),
            graph@.wf(),
            final(self).name@ == Seq::<char>::empty(),
            !final(self).directed,
            !final(self).weighted,
    {
        let name = self.name.clone();
        let graph = Graph::new(name, self.directed, self.weighted);
        self.name = String::new();
        self.directed = false;
        self.weighted = false;
        graph
    }
}

impl Default for EmptyGraphGenerator {
    fn default() -> (form: Self)
        ensures
            form.name@ == Seq::<char>::empty(),
            !form.directed,
            !form.weighted,
    {
        EmptyGraphGenerator { name: String::new(), directed: false, weighted: false }
    }
}

} // verus!
