//! A list the user picks sources from: a cursor that wraps around and a set
//! of marked entries.

use vstd::prelude::*;
use crate::text::same_text;

verus! {

/// A list of items with a cursor and marks.
pub struct PickList<T> {
    items: Vec<T>,
    cursor: Option<usize>,
    marked: Vec<bool>,
}

impl<T> PickList<T> {
    pub closed spec fn wf(&self) -> bool {
        self.marked.len() == self.items.len()
    }

    /// The entries.
    pub closed spec fn entries(&self) -> Seq<T> {
        self.items@
    }

    pub fn items(&self) -> (r: &Vec<T>)
        ensures
            r@ == self.entries(),
    {
        &self.items
    }

    /// Where the cursor stands, if anywhere.
    pub closed spec fn cursor_at(&self) -> Option<usize> {
        self.cursor
    }

    /// Whether entry `i` is marked.
    pub closed spec fn is_marked(&self, i: int) -> bool {
        0 <= i < self.marked.len() && self.marked[i]
    }

    /// A list with no cursor and nothing marked.
    pub fn with_items(items: Vec<T>) -> (r: PickList<T>)
        ensures
            r.wf(),
            r.entries() == items@,
            r.entries().len() <= usize::MAX,
            r.cursor_at() is None,
            forall|i: int| !r.is_marked(i),
    {
        let n = items.len();
        let mut marked: Vec<bool> = Vec::new();
        let mut i: usize = 0;
        while i < n
            invariant
                i <= n,
                marked.len() == i,
                forall|k: int| 0 <= k < i ==> !marked[k],
            decreases n - i,
        {
            marked.push(false);
            i = i + 1;
        }
        PickList { items, cursor: None, marked }
    }

    pub fn cursor(&self) -> (r: Option<usize>)
        ensures
            r == self.cursor_at(),
    {
        self.cursor
    }

    /// Moves the cursor down, from the last entry back to the first; with no
    /// cursor yet, to the first.
    pub fn next(&mut self)
        requires
            old(self).wf(),
        ensures
            final(self).wf(),
            final(self).entries() == old(self).entries(),
            final(self).entries().len() <= usize::MAX,
            forall|i: int| final(self).is_marked(i) == old(self).is_marked(i),
            final(self).cursor_at() == Some(
                match old(self).cursor_at() {
                    Some(i) => if i + 1 >= old(self).entries().len() {
                        0
                    } else {
                        (i + 1) as usize
                    },
                    None => 0,
                },
            ),
    {
        let i = match self.cursor {
            Some(i) => if i >= self.items.len() || self.items.len() - i <= 1 {
                0
            } else {
                i + 1
            },
            None => 0,
        };
        self.cursor = Some(i);
    }

    /// Moves the cursor up, from the first entry round to the last; with no
    /// cursor yet, to the first.
    pub fn previous(&mut self)
        requires
            old(self).wf(),
        ensures
            final(self).wf(),
            final(self).entries() == old(self).entries(),
            final(self).entries().len() <= usize::MAX,
            forall|i: int| final(self).is_marked(i) == old(self).is_marked(i),
            final(self).cursor_at() == Some(
                match old(self).cursor_at() {
                    Some(i) => if i == 0 {
                        if old(self).entries().len() == 0 {
                            0
                        } else {
                            (old(self).entries().len() - 1) as usize
                        }
                    } else {
                        (i - 1) as usize
                    },
                    None => 0,
                },
            ),
    {
        let i = match self.cursor {
            Some(i) => if i == 0 {
                if self.items.len() == 0 {
                    0
                } else {
                    self.items.len() - 1
                }
            } else {
                i - 1
            },
            None => 0,
        };
        self.cursor = Some(i);
    }

    /// Marks the entry under the cursor, or unmarks it if it was marked.
    pub fn select(&mut self)
        requires
            old(self).wf(),
        ensures
            final(self).wf(),
            final(self).entries() == old(self).entries(),
            final(self).cursor_at() == old(self).cursor_at(),
            forall|i: int|
                #[trigger] final(self).is_marked(i) == if old(self).cursor_at() == Some(i as usize) && 0 <= i
                    < old(self).entries().len() {
                    !old(self).is_marked(i)
                } else {
                    old(self).is_marked(i)
                },
    {
        match self.cursor {
            None => {},
            Some(i) => {
                if i < self.marked.len() {
                    let m = self.marked[i];
                    self.marked.set(i, !m);
                }
            },
        }
    }

    /// Marks every entry.
    pub fn select_all(&mut self)
        requires
            old(self).wf(),
        ensures
            final(self).wf(),
            final(self).entries() == old(self).entries(),
            final(self).cursor_at() == old(self).cursor_at(),
            forall|i: int| 0 <= i < old(self).entries().len() ==> #[trigger] final(self).is_marked(i),
    {
        let mut i: usize = 0;
        while i < self.marked.len()
            invariant
                self.marked.len() == self.items.len(),
                self.items@ == old(self).items@,
                self.cursor == old(self).cursor,
                i <= self.marked.len(),
                forall|k: int| 0 <= k < i ==> self.marked[k],
            decreases self.marked.len() - i,
        {
            self.marked.set(i, true);
            i = i + 1;
        }
    }

    /// The marked entries' indices, in order.
    pub fn selected(&self) -> (r: Vec<usize>)
        requires
            self.wf(),
        ensures
            forall|k: int| 0 <= k < r.len() ==> self.is_marked(r[k] as int),
            forall|i: int| #[trigger] self.is_marked(i) ==> r@.contains(i as usize),
            forall|a: int, b: int| 0 <= a < b < r.len() ==> r[a] < r[b],
    {
        let mut out: Vec<usize> = Vec::new();
        let mut i: usize = 0;
        while i < self.marked.len()
            invariant
                i <= self.marked.len(),
                forall|k: int| 0 <= k < out.len() ==> self.is_marked(out[k] as int) && out[k] < i,
                forall|j: int| 0 <= j < i && #[trigger] self.is_marked(j) ==> out@.contains(j as usize),
                forall|a: int, b: int| 0 <= a < b < out.len() ==> out[a] < out[b],
            decreases self.marked.len() - i,
        {
            if self.marked[i] {
                let ghost before = out@;
                out.push(i);
                proof {
                    assert forall|j: int| 0 <= j < i + 1 && #[trigger] self.is_marked(j) implies out@.contains(j as usize) by {
                        if j < i {
                            let w = choose|w: int| 0 <= w < before.len() && before[w] == j as usize;
                            assert(out@[w] == j as usize);
                        } else {
                            assert(out@[out.len() - 1] == i);
                        }
                    }
                }
            }
            i = i + 1;
        }
        out
    }
}

/// The names of the entries whose phase is `Running`, in order.
pub fn running_names(names: &Vec<String>, phases: &Vec<String>) -> (r: Vec<String>)
    requires
        names.len() == phases.len(),
    ensures
        r@.map_values(|s: String| s@) == running_of(names@.map_values(|s: String| s@), phases@.map_values(|s: String| s@)),
{
    let mut out: Vec<String> = Vec::new();
    let mut i: usize = 0;
    while i < names.len()
        invariant
            names.len() == phases.len(),
            i <= names.len(),
            out@.map_values(|s: String| s@) == running_of(
                names@.map_values(|s: String| s@).take(i as int),
                phases@.map_values(|s: String| s@).take(i as int),
            ),
        decreases names.len() - i,
    {
        let ghost ns = names@.map_values(|s: String| s@);
        let ghost ps = phases@.map_values(|s: String| s@);
        proof {
            assert(ns.take(i + 1).drop_last() =~= ns.take(i as int));
            assert(ps.take(i + 1).drop_last() =~= ps.take(i as int));
            assert(ns.take(i + 1).last() == names@[i as int]@);
            assert(ps.take(i + 1).last() == phases@[i as int]@);
        }
        if same_text(phases[i].as_str(), "Running") {
            let ghost before = out@;
            out.push(names[i].clone());
            proof {
                assert(out@.map_values(|s: String| s@) =~= before.map_values(|s: String| s@).push(names@[i as int]@));
            }
        }
        i = i + 1;
    }
    proof {
        assert(names@.map_values(|s: String| s@).take(names.len() as int) =~= names@.map_values(|s: String| s@));
        assert(phases@.map_values(|s: String| s@).take(names.len() as int) =~= phases@.map_values(|s: String| s@));
    }
    out
}

/// The names whose phase is `Running`.
pub open spec fn running_of(names: Seq<Seq<char>>, phases: Seq<Seq<char>>) -> Seq<Seq<char>>
    decreases names.len(),
{
    if names.len() == 0 || phases.len() == 0 {
        Seq::empty()
    } else if phases.last() == "Running"@ {
        running_of(names.drop_last(), phases.drop_last()).push(names.last())
    } else {
        running_of(names.drop_last(), phases.drop_last())
    }
}

} // verus!
