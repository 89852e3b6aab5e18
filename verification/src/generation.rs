//! Random field population: installing mines at uniformly random locations,
//! with an optional safe spot that is never mined. The entropy source is the
//! `rand` crate; everything proved here holds for every value the generator
//! can return.

use rand::Rng;
use vstd::prelude::*;

use crate::field::lemma_index_in_bounds;
use crate::field::Field;
use crate::field::FieldCoordinates;
use crate::tile::Flag;
use crate::tile::Tile;
use crate::tile::TileState;

verus! {

/// The number of positions among the first `n` at which two tile sequences
/// differ.
pub open spec fn count_changed_prefix<Ct, Cf>(
    s1: Seq<Tile<Ct, Cf>>,
    s2: Seq<Tile<Ct, Cf>>,
    n: int,
) -> int
    decreases n,
{
    if n <= 0 {
        0
    } else {
        count_changed_prefix(s1, s2, n - 1) + if s1[n - 1] == s2[n - 1] {
            0int
        } else {
            1int
        }
    }
}

proof fn lemma_count_changed_refl<Ct, Cf>(s: Seq<Tile<Ct, Cf>>, n: int)
    ensures
        count_changed_prefix(s, s, n) == 0,
    decreases n,
{
    if n > 0 {
        lemma_count_changed_refl(s, n - 1);
    }
}

proof fn lemma_count_changed_agree<Ct, Cf>(
    s1: Seq<Tile<Ct, Cf>>,
    s2: Seq<Tile<Ct, Cf>>,
    s3: Seq<Tile<Ct, Cf>>,
    n: int,
)
    requires
        forall|j: int| 0 <= j < n ==> s2[j] == s3[j],
    ensures
        count_changed_prefix(s1, s2, n) == count_changed_prefix(s1, s3, n),
    decreases n,
{
    if n > 0 {
        lemma_count_changed_agree(s1, s2, s3, n - 1);
    }
}

/// Writing one position changes the number of differing positions by at most
/// one.
proof fn lemma_count_changed_update<Ct, Cf>(
    s1: Seq<Tile<Ct, Cf>>,
    s2: Seq<Tile<Ct, Cf>>,
    i: int,
    v: Tile<Ct, Cf>,
    n: int,
)
    requires
        0 <= i < s2.len(),
        n <= s2.len(),
    ensures
        count_changed_prefix(s1, s2.update(i, v), n) <= count_changed_prefix(s1, s2, n) + 1,
    decreases n,
{
    let s3 = s2.update(i, v);
    if n > 0 {
        if i >= n {
            lemma_count_changed_agree(s1, s2, s3, n);
        } else if i == n - 1 {
            lemma_count_changed_agree(s1, s2, s3, n - 1);
        } else {
            lemma_count_changed_update(s1, s2, i, v, n - 1);
            assert(s3[n - 1] == s2[n - 1]);
        }
    }
}

/// Relies on `rand::thread_rng` and `rand::Rng::gen_range`: draws an integer
/// uniformly below `bound` from the thread-local generator, which panics on an
/// empty range. Nothing is assumed of the draw beyond its range.
#[verifier::external_body]
fn random_below(bound: usize) -> (r: usize)
    requires
        bound >= 1,
    ensures
        r < bound,
{
    rand::thread_rng().gen_range(0..bound)
}

impl<Ct, Cf> Field<Ct, Cf> {
    /// Installs `num_mines` mines, each at a location drawn uniformly at
    /// random; a draw never lands on the optional safe spot, and a draw that
    /// hits an existing mine leaves it in place, so fewer distinct mines than
    /// requested may result — but never more: at most `num_mines` tiles change.
    /// The mine count must leave room: strictly less than the area when a safe
    /// spot is reserved, at most the area otherwise.
    pub fn populate(&mut self, num_mines: usize, safe_spot: Option<FieldCoordinates>)
        requires
            old(self).wf(),
            match safe_spot {
                Some(_) => num_mines < old(self).storage@.len(),
                None => num_mines <= old(self).storage@.len(),
            },
        ensures
            final(self).wf(),
            final(self).dimensions == old(self).dimensions,
            final(self).storage@.len() == old(self).storage@.len(),
            forall|k: int|
                0 <= k < old(self).storage@.len() ==> (#[trigger] final(self).storage@[k] == old(
                    self,
                ).storage@[k] || (final(self).storage@[k].state == TileState::<Cf>::Mine(
                    Flag::NotFlagged,
                ) && final(self).storage@[k].payload == old(self).storage@[k].payload)),
            match safe_spot {
                Some(s) => old(self).spec_in_range(s) ==> final(self).storage@[old(
                    self,
                ).spec_index_of(s)] == old(self).storage@[old(self).spec_index_of(s)],
                None => true,
            },
            num_mines >= 1 ==> exists|k: int|
                0 <= k < final(self).storage@.len() && (#[trigger] final(self).storage@[k]).state
                    == TileState::<Cf>::Mine(Flag::NotFlagged),
            count_changed_prefix(
                old(self).storage@,
                final(self).storage@,
                old(self).storage@.len() as int,
            ) <= num_mines as int,
    {
        let width = self.dimensions.0;
        let height = self.dimensions.1;
        let area = self.storage.len();
        let safe_index: Option<usize> = match safe_spot {
            Some(s) => {
                if s.0 < width && s.1 < height {
                    proof {
                        lemma_index_in_bounds(width as int, height as int, s.0 as int, s.1 as int);
                    }
                    Some(s.1 * width + s.0)
                } else {
                    None
                }
            },
            None => None,
        };
        let mut placed: usize = 0;
        proof {
            lemma_count_changed_refl(self.storage@, area as int);
        }
        while placed < num_mines
            invariant
                placed <= num_mines,
                self.wf(),
                self.dimensions == old(self).dimensions,
                area == self.storage@.len(),
                area == old(self).storage@.len(),
                match safe_spot {
                    Some(_) => num_mines < area,
                    None => num_mines <= area,
                },
                match safe_index {
                    Some(si) => safe_spot matches Some(s) && old(self).spec_in_range(s) && si
                        == old(self).spec_index_of(s) && si < area && num_mines < area,
                    None => match safe_spot {
                        Some(s) => !old(self).spec_in_range(s),
                        None => true,
                    },
                },
                forall|k: int|
                    0 <= k < area ==> (#[trigger] self.storage@[k] == old(self).storage@[k] || (
                    self.storage@[k].state == TileState::<Cf>::Mine(Flag::NotFlagged)
                        && self.storage@[k].payload == old(self).storage@[k].payload)),
                match safe_index {
                    Some(si) => self.storage@[si as int] == old(self).storage@[si as int],
                    None => true,
                },
                placed >= 1 ==> exists|k: int|
                    0 <= k < area && (#[trigger] self.storage@[k]).state == TileState::<Cf>::Mine(
                        Flag::NotFlagged,
                    ),
                count_changed_prefix(old(self).storage@, self.storage@, area as int)
                    <= placed as int,
            decreases num_mines - placed,
        {
            let mine_location: usize = match safe_index {
                Some(si) => {
                    // Draw among every tile but the safe one: a draw at or
                    // past the safe index shifts up by one, which gives the
                    // same distribution as redrawing every hit on the spot.
                    let r = random_below(area - 1);
                    if r >= si {
                        r + 1
                    } else {
                        r
                    }
                },
                None => random_below(area),
            };
            let ghost prev = *self;
            self.storage[mine_location].state = TileState::Mine(Flag::NotFlagged);
            placed += 1;
            proof {
                lemma_count_changed_update(
                    old(self).storage@,
                    prev.storage@,
                    mine_location as int,
                    self.storage@[mine_location as int],
                    area as int,
                );
                assert(self.storage@ == prev.storage@.update(
                    mine_location as int,
                    self.storage@[mine_location as int],
                ));
                assert(match safe_index {
                    Some(si) => mine_location != si,
                    None => true,
                });
                assert(self.storage@[mine_location as int].state == TileState::<Cf>::Mine(
                    Flag::NotFlagged,
                ));
                assert forall|k: int| 0 <= k < area implies (#[trigger] self.storage@[k] == old(
                    self,
                ).storage@[k] || (self.storage@[k].state == TileState::<Cf>::Mine(Flag::NotFlagged)
                    && self.storage@[k].payload == old(self).storage@[k].payload)) by {
                    if k != mine_location as int {
                        assert(self.storage@[k] == prev.storage@[k]);
                    } else {
                        assert(self.storage@[k].payload == prev.storage@[k].payload);
                    }
                }
            }
        }
    }
}

} // verus!
