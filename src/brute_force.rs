use crate::entropy::{Entropy, Value, ValueIter};
use crate::entropy_field::{
    CELLS_COUNT,
    EntropyField,
    RuleViolationError,
    admits,
    is_consistent,
    is_solution,
    narrows,
};
use crate::place::{Place, depends, is_cell};
use vstd::prelude::*;

verus! {

/// The index of the first cell of `cells` with more than one candidate.
pub open spec fn is_first_open(cells: Seq<Entropy>, i: int) -> bool {
    &&& is_cell(i)
    &&& cells[i]@.len() > 1
    &&& forall|k: int| 0 <= k < i ==> (#[trigger] cells[k])@.len() <= 1
}

/// The grid `after` is what placing digit `v` at cell `p` of `before` gave: no cell gained
/// a candidate, `p` holds `v` alone, and no solution that `before` admits with `v` at
/// `p` was lost.
pub open spec fn placed(before: Seq<Entropy>, p: int, v: int, after: Seq<Entropy>) -> bool {
    &&& narrows(before, after)
    &&& after[p]@ =~= set![v]
    &&& forall|sol: Seq<int>|
        is_solution(sol) && admits(before, sol) && sol[p] == v ==> #[trigger] admits(after, sol)
}

/// The smallest digit of a nonempty set of digits.
pub open spec fn min_digit(s: Set<int>) -> int {
    choose|v: int| s.contains(v) && forall|e: int| s.contains(e) ==> v <= e
}

/// The index of the topmost frame whose cursor still has a digit, or -1.
pub open spec fn top_live(frames: Seq<(Seq<Entropy>, int, Set<int>)>) -> int
    decreases frames.len(),
{
    if frames.len() == 0 {
        -1
    } else if frames.last().2.len() > 0 {
        frames.len() - 1
    } else {
        top_live(frames.drop_last())
    }
}

proof fn lemma_top_live(frames: Seq<(Seq<Entropy>, int, Set<int>)>)
    ensures
        -1 <= top_live(frames) < frames.len(),
        top_live(frames) >= 0 ==> frames[top_live(frames)].2.len() > 0,
        forall|k: int| top_live(frames) < k < frames.len() ==> (#[trigger] frames[k]).2.len() == 0,
    decreases frames.len(),
{
    if frames.len() > 0 && frames.last().2.len() == 0 {
        lemma_top_live(frames.drop_last());
        assert forall|k: int| top_live(frames) < k < frames.len() implies (
        #[trigger] frames[k]).2.len() == 0 by {
            if k < frames.len() - 1 {
                assert(frames[k] == frames.drop_last()[k]);
            }
        }
    }
}

/// The first cell with more than one candidate, and its candidates.
fn first_entropy(field: &EntropyField) -> (r: (Place, Entropy))
    requires
        field.wf(),
        !field.solved(),
    ensures
        is_first_open(field@, r.0@),
        r.1 == field@[r.0@],
{
    let mut i: usize = 0;
    while i < CELLS_COUNT
        invariant
            i <= 81,
            field.wf(),
            !field.solved(),
            forall|k: int| 0 <= k < i ==> (#[trigger] field@[k])@.len() <= 1,
        decreases 81 - i,
    {
        match Place::new_from_raw(i) {
            Some(place) => {
                let e = *field.entropy_at(&place);
                if e.len() > 1 {
                    return (place, e);
                }
            },
            None => {},
        }
        i = i + 1;
    }
    // Not reached: every cell would then have exactly one candidate.
    proof {
        assert forall|k: int| 0 <= k < 81 implies (#[trigger] field@[k])@.len() == 1 by {
            field@[k].lemma_wf();
        }
    }
    (Place::new_from_raw(0).unwrap(), *field.entropy_at(&Place::new_from_raw(0).unwrap()))
}

/// In a grid at the propagation fixpoint with every cell decided, which is what
/// `Attacker::next` reports as found, no two cells of a row, column or box hold the
/// same digit.
pub proof fn lemma_found_grid_is_valid(cells: Seq<Entropy>)
    requires
        cells.len() == 81,
        forall|i: int| 0 <= i < 81 ==> (#[trigger] cells[i]).wf() && cells[i]@.len() == 1,
        is_consistent(cells),
    ensures
        forall|i: int, j: int|
            is_cell(i) && is_cell(j) && #[trigger] depends(i, j) ==> cells[i]@ != cells[j]@,
{
    assert forall|i: int, j: int| is_cell(i) && is_cell(j) && #[trigger] depends(i, j) implies cells[i]@
        != cells[j]@ by {
        cells[i].lemma_wf();
        let d = cells[i]@.choose();
        assert(cells[i]@.contains(d));
        if cells[i]@ == cells[j]@ {
            assert(cells[j]@.contains(d));
            assert(Set::<int>::empty().contains(i));
        }
    }
}

/// One step of the search, as `Attacker::next` reports it.
pub enum Report {
    /// A grid with every cell decided.
    Found(EntropyField),
    /// A digit tried at a cell: `Ok` with the grid it gave where that left cells open,
    /// `Err` with the rule violation that it led to.
    Try { value: Value, place: Place, result: Result<EntropyField, RuleViolationError> },
}

/// A resumable depth-first search: a stack of frames, each a grid, the cell to branch
/// on and the digits of that cell not yet tried. It does not stop at the first
/// solution, so that puzzles with several solutions can be told apart.
pub struct Attacker {
    frames: Vec<(EntropyField, Place, ValueIter)>,
    consistent: Ghost<bool>,
    root: Ghost<Seq<Entropy>>,
    found: Ghost<Seq<Seq<Entropy>>>,
}

/// Some frame admits `sol` and has the digit of `sol` at its branch cell still to try.
pub open spec fn covers(frames: Seq<(Seq<Entropy>, int, Set<int>)>, sol: Seq<int>) -> bool {
    exists|k: int|
        0 <= k < frames.len() && admits(frames[k].0, sol) && #[trigger] frames[k].2.contains(
            sol[frames[k].1],
        )
}

/// Some grid of `found` admits `sol`.
pub open spec fn found_among(found: Seq<Seq<Entropy>>, sol: Seq<int>) -> bool {
    exists|k: int| 0 <= k < found.len() && #[trigger] admits(found[k], sol)
}

impl View for Attacker {
    type V = Seq<(Seq<Entropy>, int, Set<int>)>;

    /// The frames, bottom first: each a grid, the cell to branch on and the digits left
    /// to try there.
    closed spec fn view(&self) -> Seq<(Seq<Entropy>, int, Set<int>)> {
        self.frames@.map_values(|f: (EntropyField, Place, ValueIter)| (f.0@, f.1@, f.2@))
    }
}

impl Attacker {
    /// Every frame holds a well-formed grid and cursor, and, where the search started
    /// at the propagation fixpoint, a grid at the fixpoint.
    pub closed spec fn wf(&self) -> bool {
        &&& forall|k: int|
            0 <= k < self.frames@.len() ==> {
                let f = #[trigger] self.frames@[k];
                &&& f.0.wf()
                &&& f.2.wf()
                &&& self.consistent@ ==> is_consistent(f.0@)
            }
        &&& forall|sol: Seq<int>|
            is_solution(sol) && admits(self.root@, sol) ==> covers(self@, sol) || found_among(
                self.found@,
                sol,
            )
    }

    /// The grid that the search started from.
    pub closed spec fn root(&self) -> Seq<Entropy> {
        self.root@
    }

    /// The grids reported as found so far, in order.
    pub closed spec fn found(&self) -> Seq<Seq<Entropy>> {
        self.found@
    }

    /// Whether the search started from a grid at the propagation fixpoint.
    pub closed spec fn is_consistent(&self) -> bool {
        self.consistent@
    }

    /// A search over `field`, which has some cell left open: one frame, branching on the
    /// first open cell over all its candidates.
    pub fn new(field: EntropyField) -> (r: Attacker)
        requires
            field.wf(),
            !field.solved(),
        ensures
            r@.len() == 1,
            r@[0].0 == field@,
            is_first_open(field@, r@[0].1),
            r@[0].2 == field@[r@[0].1]@,
            r.is_consistent() == is_consistent(field@),
            r.wf(),
            r.root() == field@,
            r.found() == Seq::<Seq<Entropy>>::empty(),
    {
        let (place, entropy) = first_entropy(&field);
        proof {
            use_type_invariant(&place);
        }
        let mut frames: Vec<(EntropyField, Place, ValueIter)> = Vec::new();
        frames.push((field, place, entropy.into_iter()));
        let ghost root = field@;
        let r = Attacker {
            frames,
            consistent: Ghost(is_consistent(root)),
            root: Ghost(root),
            found: Ghost(Seq::empty()),
        };
        proof {
            assert(r@[0] == (root, place@, entropy@));
            assert forall|sol: Seq<int>| is_solution(sol) && admits(root, sol) implies covers(
                r@,
                sol,
            ) by {
                assert(r@[0].2.contains(sol[r@[0].1]));
            }
        }
        r
    }

    /// One unit of work: takes the next digit of the topmost frame that has one left,
    /// dropping the exhausted frames above it (backtracking), and tries that digit at
    /// its cell on a copy of its grid. `None` once every branch has been explored.
    pub fn next(&mut self) -> (r: Option<Report>)
        requires
            old(self).wf(),
        ensures
            final(self).wf(),
            final(self).is_consistent() == old(self).is_consistent(),
            final(self).root() == old(self).root(),
            r matches Some(Report::Found(g)) ==> final(self).found() == old(self).found().push(g@),
            !(r matches Some(Report::Found(_))) ==> final(self).found() == old(self).found(),
            r is None ==> forall|sol: Seq<int>|
                is_solution(sol) && admits(old(self).root(), sol) ==> found_among(
                    old(self).found(),
                    sol,
                ),
            top_live(old(self)@) < 0 <==> r is None,
            r is None ==> final(self)@.len() == 0,
            r is Some ==> ({
                let t = top_live(old(self)@);
                let fr = old(self)@[t];
                let v = min_digit(fr.2);
                &&& final(self)@.len() > t
                &&& final(self)@.subrange(0, t) == old(self)@.subrange(0, t)
                &&& final(self)@[t] == (fr.0, fr.1, fr.2.remove(v))
                &&& (r matches Some(Report::Found(g)) ==> {
                    &&& g.wf()
                    &&& g.solved()
                    &&& placed(fr.0, fr.1, v, g@)
                    &&& final(self)@.len() == t + 1
                    &&& old(self).is_consistent() ==> is_consistent(g@)
                })
                &&& (r matches Some(Report::Try { value, place, result }) ==> {
                    &&& value@ == v
                    &&& place@ == fr.1
                    &&& (result matches Err(e) ==> {
                        &&& final(self)@.len() == t + 1
                        &&& forall|sol: Seq<int>|
                            is_solution(sol) && admits(fr.0, sol) ==> sol[fr.1] != v
                    })
                    &&& (result matches Ok(g) ==> {
                        let next = final(self)@[t + 1];
                        &&& g.wf()
                        &&& !g.solved()
                        &&& placed(fr.0, fr.1, v, g@)
                        &&& final(self)@.len() == t + 2
                        &&& next.0 == g@
                        &&& is_first_open(g@, next.1)
                        &&& next.2 == g@[next.1]@
                        &&& old(self).is_consistent() ==> is_consistent(g@)
                    })
                })
            }),
    {
        loop
            invariant
                self.consistent == old(self).consistent,
                self.root == old(self).root,
                self.found == old(self).found,
                self@.len() <= old(self)@.len(),
                self@ == old(self)@.subrange(0, self@.len() as int),
                top_live(self@) == top_live(old(self)@),
                self.wf(),
            decreases self@.len(),
        {
            let ghost before = self@;
            let ghost frames0 = self.frames@;
            match self.frames.pop() {
                None => {
                    proof {
                        assert(before.len() == 0);
                    }
                    return None;
                },
                Some(frame) => {
                    let (field, place, iter) = frame;
                    let mut iter = iter;
                    proof {
                        assert(self@ =~= before.drop_last());
                        assert(frames0[frames0.len() - 1] == frame);
                        assert(before.last() == (field@, place@, iter@));
                        assert(field.wf() && iter.wf());
                        assert(self.consistent@ ==> is_consistent(field@));
                    }
                    let ghost cursor = iter@;
                    match iter.next() {
                        None => {
                            proof {
                                assert(top_live(self@) == top_live(before));
                                assert forall|sol: Seq<int>|
                                    is_solution(sol) && admits(self.root@, sol) implies covers(
                                    self@,
                                    sol,
                                ) || found_among(self.found@, sol) by {
                                    if covers(before, sol) {
                                        let k = choose|k: int|
                                            0 <= k < before.len() && admits(before[k].0, sol)
                                                && #[trigger] before[k].2.contains(sol[before[k].1]);
                                        assert(k != before.len() - 1);
                                        assert(self@[k] == before[k]);
                                    }
                                }
                            }
                        },
                        Some(value) => {
                            let ghost t = before.len() - 1;
                            proof {
                                assert(top_live(before) == t);
                                let m = min_digit(cursor);
                                assert(cursor.contains(value@) && forall|e: int|
                                    cursor.contains(e) ==> value@ <= e);
                                assert(m == value@);
                                use_type_invariant(&place);
                            }
                            let mut next_field = field.clone();
                            self.frames.push((field, place, iter));
                            let ghost top = self@;
                            proof {
                                assert(self@ =~= before.drop_last().push(
                                    (field@, place@, cursor.remove(value@)),
                                ));
                                assert forall|sol: Seq<int>|
                                    is_solution(sol) && admits(self.root@, sol) implies covers(
                                    top,
                                    sol,
                                ) || found_among(self.found@, sol) || (admits(field@, sol)
                                    && sol[place@] == value@) by {
                                    if covers(before, sol) {
                                        let k = choose|k: int|
                                            0 <= k < before.len() && admits(before[k].0, sol)
                                                && #[trigger] before[k].2.contains(sol[before[k].1]);
                                        if k < t {
                                            assert(top[k] == before[k]);
                                        } else if sol[place@] != value@ {
                                            assert(top[t].2.contains(sol[top[t].1]));
                                        }
                                    }
                                }
                                assert(top.subrange(0, t) =~= old(self)@.subrange(0, t)) by {
                                    assert forall|k: int| 0 <= k < t implies top[k] == old(
                                        self,
                                    )@[k] by {
                                        assert(top[k] == before[k]);
                                    }
                                }
                            }
                            let single = Entropy::new_converged(value);
                            match next_field.insert(place, single) {
                                Ok(()) => {
                                    proof {
                                        next_field@[place@].lemma_wf();
                                        let w = next_field@[place@]@.choose();
                                        assert(next_field@[place@]@.contains(w));
                                        assert(next_field@[place@]@ =~= set![value@]);
                                    }
                                    if next_field.is_solved() {
                                        let ghost found0 = self.found@;
                                        self.found = Ghost(self.found@.push(next_field@));
                                        proof {
                                            assert forall|sol: Seq<int>|
                                                is_solution(sol) && admits(self.root@, sol) implies covers(
                                                self@,
                                                sol,
                                            ) || found_among(self.found@, sol) by {
                                                if found_among(found0, sol) {
                                                    let k = choose|k: int|
                                                        0 <= k < found0.len() && #[trigger] admits(
                                                            found0[k],
                                                            sol,
                                                        );
                                                    assert(self.found@[k] == found0[k]);
                                                } else if !covers(top, sol) {
                                                    assert(single@.contains(sol[place@]));
                                                    assert(admits(self.found@[found0.len() as int], sol));
                                                }
                                            }
                                        }
                                        return Some(Report::Found(next_field));
                                    } else {
                                        let res = Report::Try {
                                            value,
                                            place,
                                            result: Ok(next_field.clone()),
                                        };
                                        let (branch, candidates) = first_entropy(&next_field);
                                        let tries = candidates.into_iter();
                                        proof {
                                            next_field@[branch@].lemma_wf();
                                            use_type_invariant(&branch);
                                        }
                                        self.frames.push((next_field, branch, tries));
                                        proof {
                                            assert(self@ =~= top.push((next_field@, branch@, tries@)));
                                            assert(self@.subrange(0, t) =~= top.subrange(0, t));
                                            assert forall|sol: Seq<int>|
                                                is_solution(sol) && admits(self.root@, sol) implies covers(
                                                self@,
                                                sol,
                                            ) || found_among(self.found@, sol) by {
                                                if covers(top, sol) {
                                                    let k = choose|k: int|
                                                        0 <= k < top.len() && admits(top[k].0, sol)
                                                            && #[trigger] top[k].2.contains(sol[top[k].1]);
                                                    assert(self@[k] == top[k]);
                                                } else if !found_among(self.found@, sol) {
                                                    assert(single@.contains(sol[place@]));
                                                    assert(admits(next_field@, sol));
                                                    assert(self@[t + 1].2.contains(sol[self@[t + 1].1]));
                                                }
                                            }
                                        }
                                        return Some(res);
                                    }
                                },
                                Err(e) => {
                                    proof {
                                        assert forall|sol: Seq<int>|
                                            is_solution(sol) && admits(self.root@, sol) implies covers(
                                            self@,
                                            sol,
                                        ) || found_among(self.found@, sol) by {
                                            if admits(field@, sol) && sol[place@] == value@ {
                                                assert(single@.contains(sol[place@]));
                                            }
                                        }
                                    }
                                    return Some(Report::Try { value, place, result: Err(e) });
                                },
                            }
                        },
                    }
                },
            }
        }
    }
}

} // verus!
