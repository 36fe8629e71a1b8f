use vstd::prelude::*;

verus! {

/// A record the engine can hold: it has a mathematical view (`deep_view`)
/// and can be duplicated without changing that view. Every record that
/// flows through an RDD is of some `Data` type; contracts throughout the
/// crate speak about the views, never the runtime representation.
pub trait Data: DeepView + Sized {
    /// An explicit clone whose result is the same value, seen through the view.
    fn dup(&self) -> (r: Self)
        ensures
            r.deep_view() == self.deep_view(),
    ;
}

impl Data for bool {
    fn dup(&self) -> (r: Self) {
        *self
    }
}

impl Data for i32 {
    fn dup(&self) -> (r: Self) {
        *self
    }
}

impl Data for i64 {
    fn dup(&self) -> (r: Self) {
        *self
    }
}

impl Data for u32 {
    fn dup(&self) -> (r: Self) {
        *self
    }
}

impl Data for u64 {
    fn dup(&self) -> (r: Self) {
        *self
    }
}

impl Data for usize {
    fn dup(&self) -> (r: Self) {
        *self
    }
}

impl Data for String {
    fn dup(&self) -> (r: Self) {
        self.clone()
    }
}

impl<A: Data, B: Data> Data for (A, B) {
    fn dup(&self) -> (r: Self) {
        (self.0.dup(), self.1.dup())
    }
}

impl<T: Data> Data for Vec<T> {
    fn dup(&self) -> (r: Self) {
        let mut out: Vec<T> = Vec::new();
        let mut i: usize = 0;
        while i < self.len()
            invariant
                i <= self.len(),
                out.deep_view() == self.deep_view().take(i as int),
            decreases self.len() - i,
        {
            let ghost pre = out.deep_view();
            out.push(self[i].dup());
            proof {
                assert(out.deep_view() =~= pre.push(self.deep_view()[i as int]));
                assert(pre.push(self.deep_view()[i as int]) =~= self.deep_view().take(
                    i + 1 as int,
                ));
            }
            i += 1;
        }
        proof {
            assert(self.deep_view().take(self.len() as int) =~= self.deep_view());
        }
        out
    }
}

} // verus!
