use crate::perm::{is_perm, reached, sparse_pairs, SparsePermutation};
use vstd::prelude::*;

verus! {

/// Why an instance could not be assembled.
#[derive(Debug, Clone, Copy, PartialEq, Eq)]
pub enum LoadError {
    /// A labeling does not have `n` labels, or the move names or mappings are
    /// not `m` in number.
    BadLength,
    /// The mapping of the move at this index is not a permutation of `[0, n)`.
    BadMove(usize),
}

/// A puzzle: its labelings, its tolerance and its catalogue of moves.
pub struct Env {
    pub n: usize,
    pub m: usize,
    pub w: usize,
    pub puzzle_type: String,
    pub move_types: Vec<String>,
    pub solution_state: Vec<usize>,
    pub initial_state: Vec<usize>,
    pub allowed_moves: Vec<SparsePermutation>,
}

/// Some position `j < k` of `m` maps to `v`.
pub open spec fn reached_before(m: Seq<usize>, k: int, v: int) -> bool {
    exists|j: int| 0 <= j < k && #[trigger] m[j] == v
}

/// The mappings each have `n` entries and are permutations of `[0, n)`.
pub open spec fn all_perms(mappings: Seq<Vec<usize>>, n: nat, k: int) -> bool {
    forall|i: int| 0 <= i < k ==> #[trigger] mappings[i]@.len() == n && is_perm(mappings[i]@)
}

impl Env {
    /// The move names as character sequences.
    pub open spec fn names(&self) -> Seq<Seq<char>> {
        self.move_types@.map_values(|s: String| s@)
    }

    /// Both labelings have `n` labels, there are `m` named moves, and every
    /// move is a well-formed permutation of positions below `n`.
    pub open spec fn wf(&self) -> bool {
        &&& self.initial_state@.len() == self.n
        &&& self.solution_state@.len() == self.n
        &&& self.move_types@.len() == self.m
        &&& self.allowed_moves@.len() == self.m
        &&& forall|i: int|
            #![trigger self.allowed_moves@[i]]
            0 <= i < self.m ==> self.allowed_moves@[i].wf() && self.allowed_moves@[i].fits(
                self.n as nat,
            )
    }

    /// Assembles an instance, building each move from its mapping. Fails with
    /// `BadLength` when a count disagrees with `n` or `m`, else with `BadMove`
    /// for the first mapping that is not a permutation of `[0, n)`.
    pub fn new(
        n: usize,
        m: usize,
        w: usize,
        puzzle_type: String,
        move_types: Vec<String>,
        solution_state: Vec<usize>,
        initial_state: Vec<usize>,
        mappings: Vec<Vec<usize>>,
    ) -> (r: Result<Env, LoadError>)
        ensures
            ({
                let lengths_ok = solution_state@.len() == n && initial_state@.len() == n
                    && move_types@.len() == m && mappings@.len() == m;
                match r {
                    Ok(e) => {
                        &&& lengths_ok
                        &&& all_perms(mappings@, n as nat, m as int)
                        &&& e.wf()
                        &&& e.n == n && e.m == m && e.w == w
                        &&& e.puzzle_type == puzzle_type
                        &&& e.move_types@ == move_types@
                        &&& e.solution_state@ == solution_state@
                        &&& e.initial_state@ == initial_state@
                        &&& forall|i: int|
                            0 <= i < m ==> (#[trigger] e.allowed_moves@[i])@ == sparse_pairs(
                                mappings@[i]@,
                                n as nat,
                            )
                    },
                    Err(LoadError::BadLength) => !lengths_ok,
                    Err(LoadError::BadMove(i)) => {
                        &&& lengths_ok
                        &&& i < m
                        &&& all_perms(mappings@, n as nat, i as int)
                        &&& !(mappings@[i as int]@.len() == n && is_perm(mappings@[i as int]@))
                    },
                }
            }),
    {
        if solution_state.len() != n || initial_state.len() != n || move_types.len() != m
            || mappings.len() != m {
            return Err(LoadError::BadLength);
        }
        let mut allowed_moves: Vec<SparsePermutation> = Vec::new();
        let mut i: usize = 0;
        while i < m
            invariant
                i <= m,
                mappings@.len() == m,
                solution_state@.len() == n,
                initial_state@.len() == n,
                move_types@.len() == m,
                allowed_moves@.len() == i,
                all_perms(mappings@, n as nat, i as int),
                forall|k: int|
                    0 <= k < i ==> (#[trigger] allowed_moves@[k])@ == sparse_pairs(
                        mappings@[k]@,
                        n as nat,
                    ) && allowed_moves@[k].wf() && allowed_moves@[k].fits(n as nat),
            decreases m - i,
        {
            let mapping = &mappings[i];
            if mapping.len() != n || !is_permutation(mapping.as_slice()) {
                return Err(LoadError::BadMove(i));
            }
            let p = SparsePermutation::new(mapping.as_slice());
            allowed_moves.push(p);
            i += 1;
        }
        Ok(
            Env {
                n,
                m,
                w,
                puzzle_type,
                move_types,
                solution_state,
                initial_state,
                allowed_moves,
            },
        )
    }
}

/// Tells whether `perm` is a permutation of `[0, perm.len())`.
pub fn is_permutation(perm: &[usize]) -> (r: bool)
    ensures
        r == is_perm(perm@),
{
    let n = perm.len();
    let mut seen: Vec<bool> = Vec::new();
    let mut k: usize = 0;
    while k < n
        invariant
            k <= n,
            seen@.len() == k,
            forall|v: int| 0 <= v < k ==> !seen@[v],
        decreases n - k,
    {
        seen.push(false);
        k += 1;
    }
    let mut i: usize = 0;
    while i < n
        invariant
            n == perm@.len(),
            i <= n,
            seen@.len() == n,
            forall|j: int| 0 <= j < i ==> #[trigger] perm@[j] < n,
            forall|a: int, b: int| 0 <= a < i && 0 <= b < i && a != b ==> perm@[a] != perm@[b],
            forall|v: int| 0 <= v < n ==> (seen@[v] <==> reached_before(perm@, i as int, v)),
        decreases n - i,
    {
        let v = perm[i];
        if v >= n {
            return false;
        }
        if seen[v] {
            proof {
                let j = choose|j: int| 0 <= j < i && #[trigger] perm@[j] == v;
                assert(perm@[j] == perm@[i as int]);
            }
            return false;
        }
        seen[v] = true;
        proof {
            assert forall|u: int| 0 <= u < n implies (seen@[u] <==> reached_before(
                perm@,
                i + 1,
                u,
            )) by {
                if reached_before(perm@, i as int, u) {
                    let j = choose|j: int| 0 <= j < i && #[trigger] perm@[j] == u;
                    assert(perm@[j] == u);
                }
                if u == v {
                    assert(perm@[i as int] == u);
                }
            }
        }
        i += 1;
    }
    let mut v: usize = 0;
    while v < n
        invariant
            n == perm@.len(),
            v <= n,
            seen@.len() == n,
            forall|j: int| 0 <= j < n ==> #[trigger] perm@[j] < n,
            forall|a: int, b: int| 0 <= a < n && 0 <= b < n && a != b ==> perm@[a] != perm@[b],
            forall|u: int| 0 <= u < n ==> (seen@[u] <==> reached_before(perm@, n as int, u)),
            forall|u: int| 0 <= u < v ==> #[trigger] reached(perm@, u),
        decreases n - v,
    {
        if !seen[v] {
            proof {
                assert(!reached_before(perm@, n as int, v as int));
                assert(!reached(perm@, v as int));
            }
            return false;
        }
        proof {
            assert(reached_before(perm@, n as int, v as int));
            assert(reached(perm@, v as int));
        }
        v += 1;
    }
    true
}

} // verus!
