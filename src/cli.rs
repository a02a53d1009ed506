use vstd::prelude::*;

verus! {

/// What the program is asked to do: the document, and the first and last page to read
/// (counted from 1).
#[derive(Debug, Clone)]
pub struct Args {
    pub path: String,
    pub start: u8,
    pub end: u8,
}

impl Args {
    /// The zero-based indices of the pages `start..=end`, in order; `None` where the
    /// range holds page 0, which does not exist.
    pub fn page_indices(&self) -> (r: Option<Vec<u16>>)
        ensures
            r is None <==> self.start == 0 && self.start <= self.end,
            r matches Some(v) ==> v@.len() == (if self.start <= self.end {
                self.end - self.start + 1
            } else {
                0
            }) && forall|k: int| 0 <= k < v@.len() ==> v@[k] == self.start + k - 1,
    {
        let mut r: Vec<u16> = Vec::new();
        if self.start > self.end {
            return Some(r);
        }
        if self.start == 0 {
            return None;
        }
        let mut n: u16 = self.start as u16;
        while n <= self.end as u16
            invariant
                1 <= self.start <= n <= self.end as u16 + 1,
                self.start <= self.end,
                r@.len() == n - self.start,
                forall|k: int| 0 <= k < r@.len() ==> r@[k] == self.start + k - 1,
            decreases self.end as u16 + 1 - n,
        {
            r.push(n - 1);
            n = n + 1;
        }
        Some(r)
    }
}

} // verus!
