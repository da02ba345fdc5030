//! The files being loaded while includes are followed, for telling a
//! circular include from a repeated one.
use vstd::prelude::*;

use crate::text::texts;

verus! {

/// The paths of the files being loaded, outermost first.
pub struct OpenFiles {
    paths: Vec<String>,
}

impl View for OpenFiles {
    type V = Seq<Seq<char>>;

    closed spec fn view(&self) -> Seq<Seq<char>> {
        texts(self.paths@)
    }
}

impl OpenFiles {
    /// No file open yet.
    pub fn new() -> (r: OpenFiles)
        ensures
            r@ == Seq::<Seq<char>>::empty(),
    {
        let r = OpenFiles { paths: Vec::new() };
        assert(r@ =~= Seq::<Seq<char>>::empty());
        r
    }

    /// Start loading the file at `path`: refused, leaving the files as they
    /// are, when that file is already being loaded (the include is circular).
    pub fn enter(&mut self, path: &String) -> (r: bool)
        ensures
            r == !old(self)@.contains(path@),
            r ==> final(self)@ == old(self)@.push(path@),
            !r ==> final(self)@ == old(self)@,
    {
        let ghost ps = self@;
        let mut i: usize = 0;
        while i < self.paths.len()
            invariant
                ps == texts(self.paths@),
                0 <= i <= ps.len(),
                forall|k: int| 0 <= k < i ==> ps[k] != path@,
            decreases self.paths.len() - i,
        {
            assert(ps[i as int] == self.paths@[i as int]@);
            if self.paths[i] == *path {
                return false;
            }
            i = i + 1;
        }
        self.paths.push(path.clone());
        assert(self@ =~= ps.push(path@));
        true
    }

    /// Finish loading the innermost file.
    pub fn leave(&mut self)
        ensures
            old(self)@.len() > 0 ==> final(self)@ == old(self)@.drop_last(),
            old(self)@.len() == 0 ==> final(self)@ == old(self)@,
    {
        let ghost ps = self@;
        if self.paths.len() > 0 {
            self.paths.pop();
            assert(self@ =~= ps.drop_last());
        }
    }
}

} // verus!
