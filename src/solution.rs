use crate::metric::{wrong_count, wrong_metric};
use crate::perm::{apply_pow, SparsePermutation};
use crate::puzzle::Env;
use rustc_hash::FxHashMap;
use vstd::prelude::*;

verus! {

/// The pieces of `s` between its dots, the empty ones included.
pub open spec fn split_dots(s: Seq<char>) -> Seq<Seq<char>>
    decreases s.len(),
{
    if s.len() == 0 {
        seq![Seq::empty()]
    } else {
        let t = split_dots(s.drop_last());
        if s.last() == '.' {
            t.push(Seq::empty())
        } else {
            t.update(t.len() - 1, t.last().push(s.last()))
        }
    }
}

/// A token names its move after an optional leading `-`.
pub open spec fn move_name(tok: Seq<char>) -> Seq<char> {
    if tok.len() > 0 && tok[0] == '-' {
        tok.drop_first()
    } else {
        tok
    }
}

/// A leading `-` asks for the inverse move.
pub open spec fn move_power(tok: Seq<char>) -> isize {
    if tok.len() > 0 && tok[0] == '-' {
        -1isize
    } else {
        1isize
    }
}

/// The first `k` names, each bound to its index; a later name wins over an
/// earlier equal one.
pub open spec fn name_index(names: Seq<Seq<char>>, k: nat) -> Map<Seq<char>, usize>
    decreases k,
{
    if k == 0 {
        Map::empty()
    } else {
        name_index(names, (k - 1) as nat).insert(names[k - 1], (k - 1) as usize)
    }
}

/// The move references the tokens stand for, or the name of the first token
/// whose move is unknown.
pub open spec fn resolve(
    names: Map<Seq<char>, usize>,
    toks: Seq<Seq<char>>,
) -> Result<Seq<(usize, isize)>, Seq<char>>
    decreases toks.len(),
{
    if toks.len() == 0 {
        Ok(Seq::empty())
    } else {
        match resolve(names, toks.drop_last()) {
            Err(e) => Err(e),
            Ok(v) => {
                let name = move_name(toks.last());
                if names.dom().contains(name) {
                    Ok(v.push((names[name], move_power(toks.last()))))
                } else {
                    Err(name)
                }
            },
        }
    }
}

/// The labeling after the references are applied in order to `s`.
pub open spec fn replay(
    moves: Seq<SparsePermutation>,
    refs: Seq<(usize, isize)>,
    s: Seq<usize>,
) -> Seq<usize>
    decreases refs.len(),
{
    if refs.len() == 0 {
        s
    } else {
        apply_pow(moves[refs.last().0 as int]@, replay(moves, refs.drop_last(), s), refs.last().1 as int)
    }
}

/// The move names of a puzzle, bound to their indices.
pub open spec fn env_names(e: &Env) -> Map<Seq<char>, usize> {
    name_index(e.names(), e.move_types@.len())
}

/// The labeling a sequence of references leaves when replayed from the
/// puzzle's initial labeling.
pub open spec fn final_state(e: &Env, refs: Seq<(usize, isize)>) -> Seq<usize> {
    replay(e.allowed_moves@, refs, e.initial_state@)
}

/// Why a solution text could not be read.
#[derive(Debug, Clone, PartialEq, Eq)]
pub enum SolutionError {
    /// No move of the puzzle has this name.
    UnknownMove(Vec<char>),
}

/// A lookup table from move name to move index.
#[verifier::external_body]
pub struct MoveTable {
    map: FxHashMap<String, usize>,
}

/// The bindings a table holds.
pub uninterp spec fn table_entries(t: MoveTable) -> Map<Seq<char>, usize>;

/// Relies on `FxHashMap::default` (std's `HashMap` with rustc-hash's hasher):
/// a new map is empty.
#[verifier::external_body]
fn table_new() -> (r: MoveTable)
    ensures
        table_entries(r).dom() == Set::<Seq<char>>::empty(),
{
    MoveTable { map: FxHashMap::default() }
}

/// Relies on `HashMap::insert`: the key is bound to the value, replacing any
/// earlier binding.
#[verifier::external_body]
fn table_insert(t: &mut MoveTable, k: String, v: usize)
    ensures
        table_entries(*final(t)) == table_entries(*old(t)).insert(k@, v),
{
    t.map.insert(k, v);
}

/// Relies on `HashMap::get`: the value bound to the key, if any.
#[verifier::external_body]
fn table_get(t: &MoveTable, k: &[char]) -> (r: Option<usize>)
    ensures
        r == (if table_entries(*t).dom().contains(k@) {
            Some(table_entries(*t)[k@])
        } else {
            None
        }),
{
    t.map.get(k.iter().collect::<String>().as_str()).copied()
}

/// What `str::trim` leaves of a text.
pub uninterp spec fn trimmed(s: Seq<char>) -> Seq<char>;

/// Relies on `str::trim`: the text without leading and trailing whitespace.
#[verifier::external_body]
fn trim_text(s: &str) -> (r: &str)
    ensures
        r@ == trimmed(s@),
{
    s.trim()
}

/// Relies on `str::chars`: the characters of the text, in order.
#[verifier::external_body]
fn chars_of(s: &str) -> (r: Vec<char>)
    ensures
        r@ == s@,
{
    s.chars().collect()
}

/// One more character extends the last piece, or starts a new one at a dot.
proof fn lemma_split_step(s: Seq<char>, i: int, start: int, done: Seq<Seq<char>>)
    requires
        0 <= start <= i < s.len(),
        split_dots(s.take(i)) == done.push(s.subrange(start, i)),
    ensures
        s[i] == '.' ==> split_dots(s.take(i + 1)) == done.push(s.subrange(start, i)).push(
            s.subrange(i + 1, i + 1),
        ),
        s[i] != '.' ==> split_dots(s.take(i + 1)) == done.push(s.subrange(start, i + 1)),
{
    assert(s.take(i + 1).drop_last() =~= s.take(i));
    assert(s.subrange(i + 1, i + 1) =~= Seq::<char>::empty());
    assert(s.subrange(start, i).push(s[i]) =~= s.subrange(start, i + 1));
    assert(done.push(s.subrange(start, i)).update(done.len() as int, s.subrange(start, i + 1))
        =~= done.push(s.subrange(start, i + 1)));
}

proof fn lemma_name_index_bound(names: Seq<Seq<char>>, k: nat, key: Seq<char>)
    requires
        k <= usize::MAX,
        name_index(names, k).dom().contains(key),
    ensures
        name_index(names, k)[key] < k,
    decreases k,
{
    if k > 0 && names[k - 1] != key {
        lemma_name_index_bound(names, (k - 1) as nat, key);
    }
}

proof fn lemma_resolve_bound(names: Seq<Seq<char>>, k: nat, toks: Seq<Seq<char>>)
    requires
        k <= usize::MAX,
        resolve(name_index(names, k), toks) is Ok,
    ensures
        forall|j: int|
            0 <= j < resolve(name_index(names, k), toks)->Ok_0.len() ==> {
                let r = #[trigger] resolve(name_index(names, k), toks)->Ok_0[j];
                r.0 < k && (r.1 == 1 || r.1 == -1)
            },
    decreases toks.len(),
{
    if toks.len() > 0 {
        lemma_resolve_bound(names, k, toks.drop_last());
        let name = move_name(toks.last());
        if name_index(names, k).dom().contains(name) {
            lemma_name_index_bound(names, k, name);
        }
    }
}

/// A solution: the move references to replay, in order.
pub struct Agent {
    pub moves: Vec<(usize, isize)>,
}

impl Agent {
    /// Every reference names a move of `e` and a power of `1` or `-1`.
    pub open spec fn valid_for(&self, e: &Env) -> bool {
        forall|k: int|
            0 <= k < self.moves@.len() ==> {
                let r = #[trigger] self.moves@[k];
                r.0 < e.m && (r.1 == 1 || r.1 == -1)
            }
    }

    /// Reads a solution from its text: the text is trimmed, then read as by
    /// `from_text`.
    pub fn new(e: &Env, text: &str) -> (r: Result<Agent, SolutionError>)
        requires
            e.wf(),
        ensures
            match r {
                Ok(a) => resolve(env_names(e), split_dots(trimmed(text@))) == Ok::<
                    Seq<(usize, isize)>,
                    Seq<char>,
                >(a.moves@) && a.valid_for(e),
                Err(SolutionError::UnknownMove(name)) => resolve(
                    env_names(e),
                    split_dots(trimmed(text@)),
                ) == Err::<Seq<(usize, isize)>, Seq<char>>(name@),
            },
    {
        let t = trim_text(text);
        Agent::from_text(e, t)
    }

    /// Reads a solution from text whose tokens are separated by `.`; each token
    /// is a move name, with a leading `-` for the inverse move. Fails on the
    /// first token whose name is not a move of `e`.
    pub fn from_text(e: &Env, text: &str) -> (r: Result<Agent, SolutionError>)
        requires
            e.wf(),
        ensures
            match r {
                Ok(a) => resolve(env_names(e), split_dots(text@)) == Ok::<
                    Seq<(usize, isize)>,
                    Seq<char>,
                >(a.moves@) && a.valid_for(e),
                Err(SolutionError::UnknownMove(name)) => resolve(env_names(e), split_dots(text@))
                    == Err::<Seq<(usize, isize)>, Seq<char>>(name@),
            },
    {
        let ghost names = env_names(e);
        let mut table = table_new();
        let mut k: usize = 0;
        proof {
            assert(table_entries(table) =~= name_index(e.names(), 0));
        }
        while k < e.move_types.len()
            invariant
                k <= e.move_types@.len(),
                table_entries(table) == name_index(e.names(), k as nat),
            decreases e.move_types@.len() - k,
        {
            let name = e.move_types[k].clone();
            table_insert(&mut table, name, k);
            k += 1;
        }
        let chars = chars_of(text);
        let ghost s = chars@;
        let len = chars.len();
        let mut moves: Vec<(usize, isize)> = Vec::new();
        let mut failed: Option<Vec<char>> = None;
        let ghost mut done: Seq<Seq<char>> = Seq::empty();
        let mut start: usize = 0;
        let mut i: usize = 0;
        proof {
            assert(s.take(0) =~= Seq::<char>::empty());
            assert(s.subrange(0, 0) =~= Seq::<char>::empty());
            assert(split_dots(s.take(0)) =~= done.push(s.subrange(0, 0)));
        }
        while i < len
            invariant
                len == s.len(),
                s == chars@,
                start <= i <= len,
                table_entries(table) == names,
                split_dots(s.take(i as int)) == done.push(s.subrange(start as int, i as int)),
                match failed {
                    None => resolve(names, done) == Ok::<Seq<(usize, isize)>, Seq<char>>(moves@),
                    Some(v) => resolve(names, done) == Err::<Seq<(usize, isize)>, Seq<char>>(v@),
                },
            decreases len - i,
        {
            proof {
                lemma_split_step(s, i as int, start as int, done);
            }
            if chars[i] == '.' {
                let tok = vstd::slice::slice_subrange(chars.as_slice(), start, i);
                Self::take_token(&table, tok, &mut moves, &mut failed, Ghost(done));
                proof {
                    done = done.push(s.subrange(start as int, i as int));
                }
                start = i + 1;
            }
            i += 1;
        }
        proof {
            assert(s.take(len as int) =~= s);
        }
        let tok = vstd::slice::slice_subrange(chars.as_slice(), start, len);
        Self::take_token(&table, tok, &mut moves, &mut failed, Ghost(done));
        proof {
            done = done.push(s.subrange(start as int, len as int));
            assert(done == split_dots(text@));
        }
        match failed {
            None => {
                proof {
                    lemma_resolve_bound(e.names(), e.move_types@.len(), done);
                    let out = resolve(names, done)->Ok_0;
                    assert(out == moves@);
                    assert forall|j: int| 0 <= j < moves@.len() implies {
                        let r = #[trigger] moves@[j];
                        r.0 < e.m && (r.1 == 1 || r.1 == -1)
                    } by {
                        assert(out[j] == moves@[j]);
                    }
                }
                Ok(Agent { moves })
            },
            Some(v) => Err(SolutionError::UnknownMove(v)),
        }
    }

    /// Adds the reference of one more token, unless an earlier token failed.
    fn take_token(
        table: &MoveTable,
        tok: &[char],
        moves: &mut Vec<(usize, isize)>,
        failed: &mut Option<Vec<char>>,
        done: Ghost<Seq<Seq<char>>>,
    )
        requires
            match *old(failed) {
                None => resolve(table_entries(*table), done@) == Ok::<
                    Seq<(usize, isize)>,
                    Seq<char>,
                >(old(moves)@),
                Some(v) => resolve(table_entries(*table), done@) == Err::<
                    Seq<(usize, isize)>,
                    Seq<char>,
                >(v@),
            },
        ensures
            match *final(failed) {
                None => resolve(table_entries(*table), done@.push(tok@)) == Ok::<
                    Seq<(usize, isize)>,
                    Seq<char>,
                >(final(moves)@),
                Some(v) => resolve(table_entries(*table), done@.push(tok@)) == Err::<
                    Seq<(usize, isize)>,
                    Seq<char>,
                >(v@),
            },
    {
        proof {
            assert(done@.push(tok@).drop_last() =~= done@);
        }
        if failed.is_some() {
            return ;
        }
        let (name, power): (&[char], isize) = if tok.len() > 0 && tok[0] == '-' {
            (vstd::slice::slice_subrange(tok, 1, tok.len()), -1)
        } else {
            (tok, 1)
        };
        proof {
            if tok@.len() > 0 && tok@[0] == '-' {
                assert(name@ =~= tok@.drop_first());
            }
        }
        match table_get(table, name) {
            Some(id) => {
                moves.push((id, power));
            },
            None => {
                *failed = Some(vstd::slice::slice_to_vec(name));
            },
        }
    }

    /// Replays the solution from the initial labeling and counts the positions
    /// that then differ from the target labeling.
    pub fn wrong_facelets(&self, e: &Env) -> (r: usize)
        requires
            e.wf(),
            self.valid_for(e),
        ensures
            r == wrong_count(final_state(e, self.moves@), e.solution_state@),
    {
        let mut state = vstd::slice::slice_to_vec(e.initial_state.as_slice());
        let mut k: usize = 0;
        while k < self.moves.len()
            invariant
                e.wf(),
                self.valid_for(e),
                k <= self.moves@.len(),
                state@ == replay(e.allowed_moves@, self.moves@.take(k as int), e.initial_state@),
                state@.len() == e.n,
            decreases self.moves@.len() - k,
        {
            let (move_id, power) = self.moves[k];
            let move_ = &e.allowed_moves[move_id];
            assert(e.allowed_moves@[move_id as int].fits(e.n as nat));
            move_.apply_inplace(state.as_mut_slice(), power);
            proof {
                assert(self.moves@.take(k + 1).drop_last() =~= self.moves@.take(k as int));
            }
            k += 1;
        }
        proof {
            assert(self.moves@.take(self.moves@.len() as int) =~= self.moves@);
            broadcast use vstd::laws_eq::group_laws_eq;
        }
        wrong_metric(state.as_slice(), e.solution_state.as_slice())
    }

    /// The solution is accepted when at most `w` positions differ from the
    /// target after the replay.
    pub fn validate(&self, e: &Env) -> (r: bool)
        requires
            e.wf(),
            self.valid_for(e),
        ensures
            r == (wrong_count(final_state(e, self.moves@), e.solution_state@) <= e.w),
    {
        let wrong = self.wrong_facelets(e);
        wrong <= e.w
    }

    /// The score of a solution: its number of moves.
    pub fn compute_score(&self) -> (r: usize)
        ensures
            r == self.moves@.len(),
    {
        self.moves.len()
    }
}

} // verus!
