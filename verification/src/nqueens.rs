use vstd::prelude::*;
use vstd::seq_lib::lemma_multiset_commutative;
use vstd::slice::slice_to_vec;
use crate::rules::{
    args_view, finishes, harvest, lemma_harvest_is_surfaced, lemma_result_is_output, output, outputs_of, result,
    rets_view, split_view, surfaced, surfaced_below, Rules, Split, Views,
};
use crate::task::TaskResult;

verus! {

/// The column of the queen in one row.
pub type Queen = usize;

/// The queens placed so far, one per row, from the first row down.
pub type Board = Vec<Queen>;

/// A list of boards.
pub type Solutions = Vec<Board>;

/// Whether a queen in row `x1`, column `y1` and one in row `x2`, column `y2`
/// share a column or a diagonal.
pub open spec fn attacks(x1: int, y1: int, x2: int, y2: int) -> bool {
    y1 == y2 || y1 == y2 + (x2 - x1) || y1 == y2 - (x2 - x1)
}

/// Whether no two queens of `q` attack each other.
pub open spec fn safe(q: Seq<usize>) -> bool {
    forall|x1: int, x2: int|
        0 <= x1 < x2 < q.len() ==> !attacks(x1, q[x1] as int, x2, q[x2] as int)
}

/// The boards that extend `q` by one queen in a column below `upto` and are
/// safe, by ascending column.
pub open spec fn safe_extensions(q: Seq<usize>, upto: nat) -> Seq<Seq<usize>>
    decreases upto,
{
    if upto == 0 {
        Seq::empty()
    } else {
        let rest = safe_extensions(q, (upto - 1) as nat);
        let next = q.push((upto - 1) as usize);
        if safe(next) {
            rest.push(next)
        } else {
            rest
        }
    }
}

/// The full boards of size `n` that are found from the partial board `q`, in
/// the order of the search: a board of `n` queens is itself the one result, a
/// shorter one gives what its safe extensions give, by ascending column.
pub open spec fn solutions(q: Seq<usize>, n: usize) -> Seq<Seq<usize>>
    decreases n - q.len(), n + 1,
{
    if q.len() == n {
        seq![q]
    } else if q.len() > n {
        Seq::empty()
    } else {
        solutions_upto(q, n, n as nat)
    }
}

/// What the extensions of `q` by a column below `upto` contribute to
/// `solutions(q, n)`.
pub open spec fn solutions_upto(q: Seq<usize>, n: usize, upto: nat) -> Seq<Seq<usize>>
    decreases n - q.len(), upto,
{
    if upto == 0 || q.len() >= n || upto > n {
        Seq::empty()
    } else {
        let rest = solutions_upto(q, n, (upto - 1) as nat);
        let next = q.push((upto - 1) as usize);
        if safe(next) {
            rest + solutions(next, n)
        } else {
            rest
        }
    }
}

/// All the lists of `parts`, one after the other.
pub open spec fn concat_all(parts: Seq<Seq<Seq<usize>>>) -> Seq<Seq<usize>>
    decreases parts.len(),
{
    if parts.len() == 0 {
        Seq::empty()
    } else {
        concat_all(parts.drop_last()) + parts.last()
    }
}

/// The boards of a list, each as a sequence of columns.
pub open spec fn boards(v: Seq<Vec<usize>>) -> Seq<Seq<usize>> {
    Seq::new(v.len(), |i: int| v[i]@)
}

/// The lists of boards of a list of lists.
pub open spec fn board_lists(v: Seq<Vec<Vec<usize>>>) -> Seq<Seq<Seq<usize>>> {
    Seq::new(v.len(), |i: int| boards(v[i]@))
}

/// The boards of the child tasks of a list.
pub open spec fn arg_boards(v: Seq<(Vec<usize>, usize)>) -> Seq<Seq<usize>> {
    Seq::new(v.len(), |i: int| v[i].0@)
}

/// Tells whether no two queens of `q` attack each other.
pub fn ok(q: &[usize]) -> (r: bool)
    ensures
        r == safe(q@),
{
    let len: usize = q.len();
    let mut x1: usize = 0;
    while x1 < len
        invariant
            len == q@.len(),
            x1 <= len,
            forall|a: int, b: int| 0 <= a < b < len && a < x1 ==> !attacks(a, q@[a] as int, b, q@[b] as int),
        decreases len - x1,
    {
        let y1: usize = q[x1];
        let mut x2: usize = x1 + 1;
        while x2 < len
            invariant
                len == q@.len(),
                x1 < len,
                x1 < x2 <= len,
                y1 == q@[x1 as int],
                forall|a: int, b: int|
                    0 <= a < b < len && a < x1 ==> !attacks(a, q@[a] as int, b, q@[b] as int),
                forall|b: int| x1 < b < x2 ==> !attacks(x1 as int, y1 as int, b, q@[b] as int),
            decreases len - x2,
        {
            let y2: usize = q[x2];
            let xd: usize = x2 - x1;
            if y1 == y2 || (y1 >= y2 && y1 - y2 == xd) || (y2 >= xd && y1 == y2 - xd) {
                assert(attacks(x1 as int, q@[x1 as int] as int, x2 as int, q@[x2 as int] as int));
                return false;
            }
            x2 += 1;
        }
        x1 += 1;
    }
    true
}

/// Finds every full board of size `n` that extends the partial board `q`,
/// sequentially.
pub fn nqueens_reduce(q: &[Queen], n: usize) -> (res: Solutions)
    requires
        q@.len() <= n,
    ensures
        boards(res@) == solutions(q@, n),
    decreases n - q@.len(),
{
    if q.len() == n {
        let mut one: Solutions = Vec::new();
        one.push(slice_to_vec(q));
        return one;
    }
    let mut found: Solutions = Vec::new();
    let mut i: usize = 0;
    while i < n
        invariant
            i <= n,
            q@.len() < n,
            boards(found@) == solutions_upto(q@, n, i as nat),
        decreases n - i,
    {
        let mut q2: Board = slice_to_vec(q);
        q2.push(i);
        if ok(q2.as_slice()) {
            let mut more: Solutions = nqueens_reduce(q2.as_slice(), n);
            found.append(&mut more);
        }
        i += 1;
    }
    found
}

/// The join function of n-queens: the solutions of all children, in the order
/// of the children.
pub fn nqueens_join(values: &[Solutions]) -> (res: Solutions)
    ensures
        boards(res@) == concat_all(board_lists(values@)),
        boards(res@) == (queens_rules().join)(None, rets_view(queens_views(), values@)),
{
    let mut all: Solutions = Vec::new();
    let mut k: usize = 0;
    while k < values.len()
        invariant
            k <= values@.len(),
            boards(all@) == concat_all(board_lists(values@).take(k as int)),
        decreases values@.len() - k,
    {
        let part: &Solutions = &values[k];
        let ghost before = all@;
        let mut j: usize = 0;
        while j < part.len()
            invariant
                j <= part@.len(),
                boards(all@) == boards(before) + boards(part@).take(j as int),
            decreases part@.len() - j,
        {
            let board: Board = slice_to_vec(part[j].as_slice());
            let ghost prev = all@;
            let ghost cols = board@;
            all.push(board);
            proof {
                assert(boards(all@) =~= boards(prev).push(cols));
            }
            j += 1;
        }
        proof {
            let lists = board_lists(values@);
            assert(lists.take(k + 1).drop_last() =~= lists.take(k as int));
        }
        k += 1;
    }
    assert(board_lists(values@).take(values@.len() as int) =~= board_lists(values@));
    assert(rets_view(queens_views(), values@) =~= board_lists(values@));
    all
}

/// The child tasks of the partial board `q`: one per safe extension, by
/// ascending column.
fn fork_boards(q: &Board, n: usize) -> (children: Vec<(Board, usize)>)
    ensures
        arg_boards(children@) == safe_extensions(q@, n as nat),
        forall|i: int| 0 <= i < children@.len() ==> (#[trigger] children@[i]).1 == n,
{
    let mut fork_args: Vec<(Board, usize)> = Vec::new();
    let mut i: usize = 0;
    while i < n
        invariant
            i <= n,
            arg_boards(fork_args@) == safe_extensions(q@, i as nat),
            forall|k: int| 0 <= k < fork_args@.len() ==> (#[trigger] fork_args@[k]).1 == n,
        decreases n - i,
    {
        let mut q2: Board = slice_to_vec(q.as_slice());
        q2.push(i);
        if ok(q2.as_slice()) {
            fork_args.push((q2, n));
        }
        i += 1;
    }
    fork_args
}

/// The split function of n-queens where every full board is surfaced on its
/// own: a full board is the task's output, a shorter one forks into its safe
/// extensions.
pub fn nqueens_task_search(arg: (Board, usize)) -> (res: TaskResult<(Board, usize), Board>)
    ensures
        arg.0@.len() == arg.1 ==> (res matches TaskResult::Done(board) && board@ == arg.0@),
        arg.0@.len() != arg.1 ==> (res matches TaskResult::Fork(children, context) && {
            &&& context is None
            &&& arg_boards(children@) == safe_extensions(arg.0@, arg.1 as nat)
            &&& forall|i: int| 0 <= i < children@.len() ==> (#[trigger] children@[i]).1 == arg.1
        }),
        split_view(queens_search_views(), res) == queens_search_split((arg.0@, arg.1)),
{
    let (q, n) = arg;
    if q.len() == n {
        TaskResult::Done(q)
    } else {
        let children = fork_boards(&q, n);
        proof {
            lemma_forked_model(children@, q@, n);
        }
        TaskResult::Fork(children, None)
    }
}

/// The split function of n-queens where the solutions are gathered into one
/// list: a full board gives the list of that one board, a shorter one forks
/// into its safe extensions.
pub fn nqueens_task_reduce(arg: (Board, usize)) -> (res: TaskResult<(Board, usize), Solutions>)
    ensures
        arg.0@.len() == arg.1 ==> (res matches TaskResult::Done(found) && boards(found@) == seq![arg.0@]),
        arg.0@.len() != arg.1 ==> (res matches TaskResult::Fork(children, context) && {
            &&& context is None
            &&& arg_boards(children@) == safe_extensions(arg.0@, arg.1 as nat)
            &&& forall|i: int| 0 <= i < children@.len() ==> (#[trigger] children@[i]).1 == arg.1
        }),
        split_view(queens_views(), res) == queens_split((arg.0@, arg.1)),
{
    let (q, n) = arg;
    if q.len() == n {
        let mut one: Solutions = Vec::new();
        one.push(q);
        TaskResult::Done(one)
    } else {
        let children = fork_boards(&q, n);
        proof {
            lemma_forked_model(children@, q@, n);
        }
        TaskResult::Fork(children, None)
    }
}

proof fn lemma_forked_model(children: Seq<(Vec<usize>, usize)>, q: Seq<usize>, n: usize)
    requires
        arg_boards(children) == safe_extensions(q, n as nat),
        forall|i: int| 0 <= i < children.len() ==> (#[trigger] children[i]).1 == n,
    ensures
        args_view(queens_views(), children) == tasks_on(safe_extensions(q, n as nat), n),
        args_view(queens_search_views(), children) == tasks_on(safe_extensions(q, n as nat), n),
{
    let boards = safe_extensions(q, n as nat);
    assert forall|i: int| 0 <= i < children.len() implies (children[i].0@, children[i].1) == (boards[i], n) by {
        assert(arg_boards(children)[i] == children[i].0@);
    }
}

/// The solutions that each board of `children` gives, in the order of
/// `children`.
pub open spec fn solutions_of_each(children: Seq<Seq<usize>>, n: usize) -> Seq<Seq<Seq<usize>>> {
    Seq::new(children.len(), |i: int| solutions(children[i], n))
}

proof fn lemma_solutions_upto_joins(q: Seq<usize>, n: usize, upto: nat)
    requires
        q.len() < n,
        upto <= n,
    ensures
        solutions_upto(q, n, upto) == concat_all(solutions_of_each(safe_extensions(q, upto), n)),
    decreases upto,
{
    if upto > 0 {
        let rest = safe_extensions(q, (upto - 1) as nat);
        let next = q.push((upto - 1) as usize);
        lemma_solutions_upto_joins(q, n, (upto - 1) as nat);
        if safe(next) {
            let all = solutions_of_each(rest.push(next), n);
            assert(all.drop_last() =~= solutions_of_each(rest, n));
        }
    }
}

/// The solutions of a partial board are the join of the solutions of the
/// children that its task forks into: the safe extensions, by ascending column.
pub proof fn lemma_solutions_join(q: Seq<usize>, n: usize)
    requires
        q.len() < n,
    ensures
        solutions(q, n) == concat_all(solutions_of_each(safe_extensions(q, n as nat), n)),
{
    lemma_solutions_upto_joins(q, n, n as nat);
}

/// A board of size zero has exactly one solution, the empty board.
pub proof fn lemma_solutions_of_size_zero()
    ensures
        solutions(Seq::empty(), 0) == seq![Seq::<usize>::empty()],
{
}

/// Every board that the search from `q` finds is a full board that starts with
/// `q`.
pub proof fn lemma_solutions_extend(q: Seq<usize>, n: usize, k: int)
    requires
        q.len() <= n,
        0 <= k < solutions(q, n).len(),
    ensures
        solutions(q, n)[k].len() == n,
        solutions(q, n)[k].take(q.len() as int) == q,
    decreases n - q.len(), n + 1,
{
    if q.len() != n {
        lemma_solutions_upto_extend(q, n, n as nat, k);
    }
}

proof fn lemma_solutions_upto_extend(q: Seq<usize>, n: usize, upto: nat, k: int)
    requires
        q.len() < n,
        upto <= n,
        0 <= k < solutions_upto(q, n, upto).len(),
    ensures
        solutions_upto(q, n, upto)[k].len() == n,
        solutions_upto(q, n, upto)[k].take(q.len() as int) == q,
    decreases n - q.len(), upto,
{
    if upto > 0 {
        let rest = solutions_upto(q, n, (upto - 1) as nat);
        let next = q.push((upto - 1) as usize);
        if k < rest.len() {
            lemma_solutions_upto_extend(q, n, (upto - 1) as nat, k);
        } else {
            lemma_solutions_extend(next, n, k - rest.len());
        }
    }
}

/// Whether `s` is a full board of size `n` that extends the partial board `q`
/// by queens in columns below `n`.
pub open spec fn extends_to(q: Seq<usize>, n: usize, s: Seq<usize>) -> bool {
    &&& q.len() <= n
    &&& s.len() == n
    &&& forall|i: int| 0 <= i < q.len() ==> s[i] == q[i]
    &&& forall|j: int| q.len() <= j < n ==> s[j] < n
}

proof fn lemma_solutions_upto_sound(q: Seq<usize>, n: usize, upto: nat, k: int)
    requires
        q.len() < n,
        upto <= n,
        0 <= k < solutions_upto(q, n, upto).len(),
    ensures
        safe(solutions_upto(q, n, upto)[k]),
        extends_to(q, n, solutions_upto(q, n, upto)[k]),
    decreases n - q.len(), upto,
{
    if upto > 0 {
        let rest = solutions_upto(q, n, (upto - 1) as nat);
        let next = q.push((upto - 1) as usize);
        if k < rest.len() {
            lemma_solutions_upto_sound(q, n, (upto - 1) as nat, k);
        } else {
            let board = solutions(next, n)[k - rest.len()];
            lemma_solutions_sound(next, n, k - rest.len());
            assert forall|i: int| 0 <= i < q.len() implies board[i] == q[i] by {
                assert(board[i] == next[i]);
            }
            assert forall|j: int| q.len() <= j < n implies board[j] < n by {
                if j == q.len() {
                    assert(board[j] == next[j]);
                }
            }
        }
    }
}

/// Every board that the search from `q` finds is safe, full, and extends `q`
/// by queens in columns of the board. A board `q` that is full already is
/// found as it is, so it has to be safe itself.
pub proof fn lemma_solutions_sound(q: Seq<usize>, n: usize, k: int)
    requires
        q.len() <= n,
        q.len() < n || safe(q),
        0 <= k < solutions(q, n).len(),
    ensures
        safe(solutions(q, n)[k]),
        extends_to(q, n, solutions(q, n)[k]),
    decreases n - q.len(), n + 1,
{
    if q.len() != n {
        lemma_solutions_upto_sound(q, n, n as nat, k);
    }
}

proof fn lemma_upto_count(q: Seq<usize>, n: usize, upto: nat, s: Seq<usize>)
    requires
        q.len() < n,
        upto <= n,
        extends_to(q, n, s),
        safe(s),
    ensures
        solutions_upto(q, n, upto).to_multiset().count(s) == if s[q.len() as int] < upto {
            1nat
        } else {
            0nat
        },
    decreases n - q.len(), upto,
{
    broadcast use {
        vstd::multiset::group_multiset_properties,
        vstd::multiset::group_multiset_axioms,
    };
    let row = q.len() as int;
    if upto == 0 {
        let none = solutions_upto(q, n, 0);
        none.to_multiset_ensures();
        assert(!none.contains(s));
    } else {
        let column = (upto - 1) as usize;
        let rest = solutions_upto(q, n, (upto - 1) as nat);
        let next = q.push(column);
        lemma_upto_count(q, n, (upto - 1) as nat, s);
        if s[row] == column {
            assert(next =~= s.take(row + 1));
            assert(safe(next));
            assert(extends_to(next, n, s));
            lemma_solutions_complete(next, n, s);
            lemma_multiset_commutative(rest, solutions(next, n));
        } else if safe(next) {
            let found = solutions(next, n);
            found.to_multiset_ensures();
            if found.contains(s) {
                let k = choose|k: int| 0 <= k < found.len() && found[k] == s;
                lemma_solutions_sound(next, n, k);
                assert(found[k][row] == next[row]);
            }
            lemma_multiset_commutative(rest, found);
        }
    }
}

/// Every safe full board that extends `q` by queens in columns of the board is
/// found by the search from `q`, and found exactly once.
pub proof fn lemma_solutions_complete(q: Seq<usize>, n: usize, s: Seq<usize>)
    requires
        extends_to(q, n, s),
        safe(s),
    ensures
        solutions(q, n).to_multiset().count(s) == 1,
    decreases n - q.len(), n + 1,
{
    broadcast use {
        vstd::multiset::group_multiset_properties,
        vstd::multiset::group_multiset_axioms,
    };
    if q.len() == n {
        assert(s =~= q);
        let one = Seq::<Seq<usize>>::empty().push(q);
        assert(solutions(q, n) =~= one);
        Seq::<Seq<usize>>::empty().to_multiset_ensures();
        assert(Seq::<Seq<usize>>::empty().to_multiset() =~= vstd::multiset::Multiset::<Seq<usize>>::empty());
    } else {
        lemma_upto_count(q, n, n as nat, s);
    }
}

/// The inputs of the tasks on the boards `children`, all for a board of size
/// `n`.
pub open spec fn tasks_on(children: Seq<Seq<usize>>, n: usize) -> Seq<(Seq<usize>, usize)> {
    Seq::new(children.len(), |i: int| (children[i], n))
}

/// What `nqueens_task_reduce` returns for the board `arg.0` and the size
/// `arg.1`.
pub open spec fn queens_split(arg: (Seq<usize>, usize)) -> Split<(Seq<usize>, usize), Seq<Seq<usize>>> {
    if arg.0.len() == arg.1 {
        Split::Done(seq![arg.0])
    } else {
        Split::Fork(tasks_on(safe_extensions(arg.0, arg.1 as nat), arg.1), None)
    }
}

/// What `nqueens_task_search` returns for the board `arg.0` and the size
/// `arg.1`.
pub open spec fn queens_search_split(arg: (Seq<usize>, usize)) -> Split<(Seq<usize>, usize), Seq<usize>> {
    if arg.0.len() == arg.1 {
        Split::Done(arg.0)
    } else {
        Split::Fork(tasks_on(safe_extensions(arg.0, arg.1 as nat), arg.1), None)
    }
}

/// N-queens with gathered solutions as rules: `nqueens_task_reduce` and
/// `nqueens_join`.
pub open spec fn queens_rules() -> Rules<(Seq<usize>, usize), Seq<Seq<usize>>> {
    Rules {
        split: |arg: (Seq<usize>, usize)| queens_split(arg),
        join: |context: Option<Seq<Seq<usize>>>, values: Seq<Seq<Seq<usize>>>| concat_all(values),
    }
}

/// N-queens as a search, as rules: `nqueens_task_search`, and no join.
pub open spec fn queens_search_rules() -> Rules<(Seq<usize>, usize), Seq<usize>> {
    Rules {
        split: |arg: (Seq<usize>, usize)| queens_search_split(arg),
        join: |context: Option<Seq<usize>>, values: Seq<Seq<usize>>| Seq::empty(),
    }
}

/// The boards that the tasks hold stand for their sequences of columns, and
/// the lists of boards for the sequences of those.
pub open spec fn queens_views() -> Views<(Board, usize), Solutions, (Seq<usize>, usize), Seq<Seq<usize>>> {
    Views { arg: |arg: (Board, usize)| (arg.0@, arg.1), ret: |found: Solutions| boards(found@) }
}

/// The boards that the tasks of the search hold and surface stand for their
/// sequences of columns.
pub open spec fn queens_search_views() -> Views<(Board, usize), Board, (Seq<usize>, usize), Seq<usize>> {
    Views { arg: |arg: (Board, usize)| (arg.0@, arg.1), ret: |board: Board| board@ }
}

proof fn lemma_safe_extensions_longer(q: Seq<usize>, upto: nat, i: int)
    requires
        0 <= i < safe_extensions(q, upto).len(),
    ensures
        safe_extensions(q, upto)[i].len() == q.len() + 1,
    decreases upto,
{
    if upto > 0 {
        let rest = safe_extensions(q, (upto - 1) as nat);
        if i < rest.len() {
            lemma_safe_extensions_longer(q, (upto - 1) as nat, i);
        }
    }
}

/// The fork-join job that gathers the solutions gives what the sequential
/// `nqueens_reduce` gives, in the same order: it ends after one fork for each
/// row that is still empty, and the joins concatenate the children's solutions
/// to `solutions(q, n)`.
pub proof fn lemma_queens_job(q: Seq<usize>, n: usize, depth: nat)
    requires
        q.len() <= n,
        depth >= n - q.len(),
    ensures
        finishes(queens_rules(), (q, n), depth),
        output(queens_rules(), (q, n), depth) == solutions(q, n),
    decreases n - q.len(),
{
    let rules = queens_rules();
    if q.len() < n {
        let children = safe_extensions(q, n as nat);
        let args = tasks_on(children, n);
        let below = (depth - 1) as nat;
        assert forall|i: int| 0 <= i < args.len() implies finishes(rules, #[trigger] args[i], below)
            && outputs_of(rules, args, below)[i] == solutions(children[i], n) by {
            lemma_safe_extensions_longer(q, n as nat, i);
            lemma_queens_job(children[i], n, below);
        }
        assert(outputs_of(rules, args, below) =~= solutions_of_each(children, n));
        lemma_solutions_join(q, n);
    }
}

proof fn lemma_queens_surfaced_below(q: Seq<usize>, n: usize, depth: nat, k: nat)
    requires
        q.len() < n,
        depth + 1 >= n - q.len(),
        k <= safe_extensions(q, n as nat).len(),
    ensures
        surfaced_below(queens_search_rules(), tasks_on(safe_extensions(q, n as nat), n), depth, k)
            == concat_all(solutions_of_each(safe_extensions(q, n as nat), n).take(k as int)),
    decreases n - q.len(), 0nat, k,
{
    let children = safe_extensions(q, n as nat);
    let each = solutions_of_each(children, n);
    if k > 0 {
        lemma_queens_surfaced_below(q, n, depth, (k - 1) as nat);
        lemma_safe_extensions_longer(q, n as nat, k - 1);
        lemma_queens_search_job(children[k - 1], n, depth);
        assert(each.take(k as int).drop_last() =~= each.take(k - 1));
    }
}

/// The fork-join job that searches surfaces, leaf by leaf, exactly the boards
/// that the sequential `nqueens_reduce` gives.
pub proof fn lemma_queens_search_job(q: Seq<usize>, n: usize, depth: nat)
    requires
        q.len() <= n,
        depth >= n - q.len(),
    ensures
        surfaced(queens_search_rules(), (q, n), depth) == solutions(q, n),
    decreases n - q.len(), 1nat, 0nat,
{
    if q.len() < n {
        let children = safe_extensions(q, n as nat);
        let each = solutions_of_each(children, n);
        lemma_queens_surfaced_below(q, n, (depth - 1) as nat, children.len());
        assert(each.take(children.len() as int) =~= each);
        lemma_solutions_join(q, n);
    }
}

proof fn lemma_queens_search_ends(q: Seq<usize>, n: usize, depth: nat)
    requires
        q.len() <= n,
        depth >= n - q.len(),
    ensures
        finishes(queens_search_rules(), (q, n), depth),
    decreases n - q.len(),
{
    let rules = queens_search_rules();
    if q.len() < n {
        let children = safe_extensions(q, n as nat);
        let args = tasks_on(children, n);
        assert forall|i: int| 0 <= i < args.len() implies finishes(
            rules,
            #[trigger] args[i],
            (depth - 1) as nat,
        ) by {
            lemma_safe_extensions_longer(q, n as nat, i);
            lemma_queens_search_ends(children[i], n, (depth - 1) as nat);
        }
    }
}

/// All that the search from `q` surfaces is what the sequential
/// `nqueens_reduce` gives.
pub proof fn lemma_queens_harvest(q: Seq<usize>, n: usize)
    requires
        q.len() <= n,
    ensures
        finishes(queens_search_rules(), (q, n), (n - q.len()) as nat),
        harvest(queens_search_rules(), (q, n)) == solutions(q, n),
{
    let depth = (n - q.len()) as nat;
    lemma_queens_search_ends(q, n, depth);
    lemma_queens_search_job(q, n, depth);
    lemma_harvest_is_surfaced(queens_search_rules(), (q, n), depth);
}

/// Runs the whole fork-join job that gathers the solutions on the calling
/// thread: the split function, then the jobs of the children in fork order,
/// then the join. It gives what the sequential `nqueens_reduce` gives, in the
/// same order.
pub fn run_nqueens_reduce(arg: (Board, usize)) -> (found: Solutions)
    requires
        arg.0@.len() <= arg.1,
    ensures
        boards(found@) == solutions(arg.0@, arg.1),
        boards(found@) == result(queens_rules(), (arg.0@, arg.1)),
    decreases arg.1 - arg.0@.len(),
{
    let ghost q = arg.0@;
    let ghost n = arg.1;
    proof {
        lemma_queens_job(q, n, (n - q.len()) as nat);
        lemma_result_is_output(queens_rules(), (q, n), (n - q.len()) as nat);
    }
    match nqueens_task_reduce(arg) {
        TaskResult::Done(one) => one,
        TaskResult::Fork(children, _) => {
            let ghost inputs = children@;
            let ghost extensions = safe_extensions(q, n as nat);
            let mut outputs: Vec<Solutions> = Vec::new();
            for child in it: children
                invariant
                    it.seq() == inputs,
                    q == arg.0@,
                    n == arg.1,
                    q.len() < n,
                    extensions == safe_extensions(q, n as nat),
                    arg_boards(inputs) == extensions,
                    forall|i: int| 0 <= i < inputs.len() ==> (#[trigger] inputs[i]).1 == n,
                    outputs@.len() == it.index(),
                    forall|k: int|
                        0 <= k < it.index() ==> boards(#[trigger] outputs@[k]@) == solutions(extensions[k], n),
            {
                proof {
                    let k = it.index() as int;
                    assert(arg_boards(inputs)[k] == inputs[k].0@);
                    lemma_safe_extensions_longer(q, n as nat, k);
                }
                outputs.push(run_nqueens_reduce(child));
            }
            proof {
                assert(board_lists(outputs@) =~= solutions_of_each(extensions, n));
                lemma_solutions_join(q, n);
            }
            nqueens_join(outputs.as_slice())
        },
    }
}

/// Runs the whole fork-join job that searches on the calling thread and
/// gathers what it surfaces, leaf by leaf in fork order. These are the boards
/// that the sequential `nqueens_reduce` gives, in the same order.
pub fn run_nqueens_search(arg: (Board, usize)) -> (surfaced: Solutions)
    requires
        arg.0@.len() <= arg.1,
    ensures
        boards(surfaced@) == solutions(arg.0@, arg.1),
        boards(surfaced@) == harvest(queens_search_rules(), (arg.0@, arg.1)),
    decreases arg.1 - arg.0@.len(),
{
    let ghost q = arg.0@;
    let ghost n = arg.1;
    proof {
        lemma_queens_harvest(q, n);
    }
    match nqueens_task_search(arg) {
        TaskResult::Done(board) => {
            let mut one: Solutions = Vec::new();
            one.push(board);
            assert(boards(one@) =~= seq![q]);
            one
        },
        TaskResult::Fork(children, _) => {
            let ghost inputs = children@;
            let ghost extensions = safe_extensions(q, n as nat);
            let mut all: Solutions = Vec::new();
            assert(boards(all@) =~= Seq::empty());
            assert(solutions_of_each(extensions, n).take(0) =~= Seq::empty());
            for child in it: children
                invariant
                    it.seq() == inputs,
                    q == arg.0@,
                    n == arg.1,
                    q.len() < n,
                    extensions == safe_extensions(q, n as nat),
                    arg_boards(inputs) == extensions,
                    forall|i: int| 0 <= i < inputs.len() ==> (#[trigger] inputs[i]).1 == n,
                    boards(all@) == concat_all(solutions_of_each(extensions, n).take(it.index() as int)),
            {
                let ghost k = it.index() as int;
                proof {
                    assert(arg_boards(inputs)[k] == inputs[k].0@);
                    lemma_safe_extensions_longer(q, n as nat, k);
                }
                let mut more: Solutions = run_nqueens_search(child);
                let ghost held = all@;
                let ghost added = more@;
                all.append(&mut more);
                proof {
                    let each = solutions_of_each(extensions, n);
                    assert(boards(all@) =~= boards(held) + boards(added));
                    assert(each.take(k + 1).drop_last() =~= each.take(k));
                    assert(each.take(k + 1).last() == solutions(extensions[k], n));
                }
            }
            proof {
                let each = solutions_of_each(extensions, n);
                assert(each.take(inputs.len() as int) =~= each);
                lemma_solutions_join(q, n);
            }
            all
        },
    }
}

} // verus!
