use vstd::prelude::*;
use crate::index::{Index, IndexView};

verus! {

/// A small demonstration: an index filled with five sample documents.
#[derive(Debug, Clone)]
pub struct DemoApp {
    pub index: Index,
}

impl Default for DemoApp {
    fn default() -> (r: Self)
        ensures
            r.index.wf(),
            r.index@ == IndexView::empty(),
    {
        DemoApp { index: Index::default() }
    }
}

impl DemoApp {
    /// Adds the five sample documents, in order.
    pub fn add_entries(&mut self)
        requires
            old(self).index.wf(),
            old(self).index@.count + 5 <= u32::MAX,
        ensures
            final(self).index.wf(),
            final(self).index@ == old(self).index@.added("d1"@, "t1 t2 t3 t4"@).added("d2"@, "t2 t3"@).added(
                "d3"@,
                "t3 t4"@,
            ).added("d4"@, "t4"@).added("d5"@, "t1 t3"@),
    {
        proof {
            reveal_strlit("t1 t2 t3 t4");
            reveal_strlit("t2 t3");
            reveal_strlit("t3 t4");
            reveal_strlit("t4");
            reveal_strlit("t1 t3");
        }
        self.index.add("d1", "t1 t2 t3 t4");
        self.index.add("d2", "t2 t3");
        self.index.add("d3", "t3 t4");
        self.index.add("d4", "t4");
        self.index.add("d5", "t1 t3");
    }
}

} // verus!
