use vstd::prelude::*;

verus! {

/// What a split function hands back for one task.
#[derive(Debug, PartialEq, Eq)]
pub enum TaskResult<Arg, Ret> {
    /// The task is a leaf and this is its output.
    Done(Ret),
    /// The task forks into one child per argument, in this order. The second
    /// field is the context that a join with context will be given.
    Fork(Vec<Arg>, Option<Ret>),
}

/// How the outputs of a task's children are combined.
#[derive(Debug, Clone, Copy, PartialEq, Eq, Structural)]
pub enum JoinStyle {
    /// The join sees the children's outputs only.
    Reduce,
    /// The join also sees the context that the parent captured when it forked.
    Summa,
    /// There is no join: each leaf output is surfaced on its own.
    Search,
}

/// A contiguous part of a buffer: `len` elements starting at `start`.
#[derive(Debug, Clone, Copy, PartialEq, Eq, Structural)]
pub struct SubView {
    pub start: usize,
    pub len: usize,
}

impl SubView {
    /// The index one past the last element of the view.
    pub open spec fn end(self) -> int {
        self.start + self.len
    }

    /// Whether the view lies inside a buffer of `n` elements.
    pub open spec fn fits(self, n: nat) -> bool {
        self.start + self.len <= n
    }

    /// The part of `s` that the view covers.
    pub open spec fn of(self, s: Seq<usize>) -> Seq<usize> {
        s.subrange(self.start as int, self.start + self.len)
    }

    /// Whether `other` starts exactly where `self` ends.
    pub open spec fn adjoins(self, other: SubView) -> bool {
        self.start + self.len == other.start
    }

    /// Whether the view lies inside `outer`.
    pub open spec fn within(self, outer: SubView) -> bool {
        outer.start <= self.start && self.end() <= outer.end()
    }

    /// Whether the two views share no index.
    pub open spec fn disjoint(self, other: SubView) -> bool {
        self.end() <= other.start || other.end() <= self.start
    }
}

} // verus!
