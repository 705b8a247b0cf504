use vstd::prelude::*;

use crate::mahjong_error::MahjongError;
use crate::mahjong_tile::{
    get_num_tile_rank, get_num_tile_suit, spec_num_tile_rank, spec_num_tile_suit, valid_id,
};

verus! {

/// The kinds of melds (and partial groups) a hand can hold.
#[derive(Debug, Clone, Copy, PartialEq, Eq, Structural, Hash)]
pub enum MeldType {
    /// ankou
    ClosedTriplet,
    /// minkou
    OpenTriplet,
    /// ankan (all four tiles are self-drawn)
    ClosedQuad,
    /// daiminkan (three of four tiles are already self-drawn, the fourth is called from an
    /// opponent's discard)
    OpenQuad,
    /// shouminkan (formed by first having an open triplet, then self-drawing the fourth copy)
    AddedQuad,
    /// anjun
    ClosedSequence,
    /// minjun
    OpenSequence,
    /// jantou, also called the "eye"
    Pair,
    Isolated,
}

/// The meld types that were formed with a tile called from another player.
pub open spec fn spec_meld_type_is_open(meld_type: MeldType) -> bool {
    match meld_type {
        MeldType::OpenTriplet | MeldType::OpenQuad | MeldType::AddedQuad | MeldType::OpenSequence => true,
        _ => false,
    }
}

impl MeldType {
    pub fn is_open(&self) -> (r: bool)
        ensures
            r == spec_meld_type_is_open(*self),
    {
        match self {
            MeldType::OpenTriplet | MeldType::OpenQuad | MeldType::AddedQuad
            | MeldType::OpenSequence => true,
            MeldType::ClosedTriplet | MeldType::ClosedQuad | MeldType::ClosedSequence
            | MeldType::Pair | MeldType::Isolated => false,
        }
    }
}

/// A meld of a hand: its type and the tile ids it holds.
#[derive(Clone, Copy)]
pub struct MahjongMeld {
    pub meld_type: MeldType,
    /// the tile ids of the meld; `None` marks the places the meld does not use
    pub tile_ids: [Option<u8>; 4],
    /// None for closed melds
    pub added_tile_id: Option<u8>,
    /// None for closed melds
    pub added_tile_player: Option<u8>,
}

/// The rank (1-9) of a numbered tile id.
pub open spec fn rank_of(id: u8) -> int {
    spec_num_tile_rank(id)->Some_0 as int
}

/// Three numbered tiles of one suit whose ranks are three consecutive numbers, in any order.
pub open spec fn spec_is_sequence(ids: Seq<u8>) -> bool {
    &&& ids.len() == 3
    &&& forall|i: int| 0 <= i < 3 ==> (#[trigger] spec_num_tile_suit(ids[i])) is Some
    &&& spec_num_tile_suit(ids[0]) == spec_num_tile_suit(ids[1])
    &&& spec_num_tile_suit(ids[1]) == spec_num_tile_suit(ids[2])
    &&& forall|i: int, j: int|
        0 <= i < 3 && 0 <= j < 3 && i != j ==> rank_of(ids[i]) != rank_of(ids[j]) && -2 <= rank_of(
            ids[i],
        ) - rank_of(ids[j]) <= 2
}

/// `n` copies of one tile id.
pub open spec fn spec_all_same(ids: Seq<u8>, n: int) -> bool {
    ids.len() == n && forall|i: int| 0 <= i < n ==> #[trigger] ids[i] == ids[0]
}

/// Whether the tile ids form a meld of the given type: three (triplet), four (quad) or two
/// (pair) copies of one tile, a sequence, or a single tile.
pub open spec fn spec_is_valid_meld(ids: Seq<u8>, meld_type: MeldType) -> bool {
    match meld_type {
        MeldType::ClosedTriplet | MeldType::OpenTriplet => spec_all_same(ids, 3),
        MeldType::ClosedQuad | MeldType::OpenQuad | MeldType::AddedQuad => spec_all_same(ids, 4),
        MeldType::Pair => spec_all_same(ids, 2),
        MeldType::ClosedSequence | MeldType::OpenSequence => spec_is_sequence(ids),
        MeldType::Isolated => ids.len() == 1,
    }
}

/// The ids can be checked against the meld type: three ids checked for a sequence all name
/// one of the 34 tiles.
pub open spec fn ids_checkable(ids: Seq<u8>, meld_type: MeldType) -> bool {
    (meld_type == MeldType::ClosedSequence || meld_type == MeldType::OpenSequence) && ids.len()
        == 3 ==> forall|i: int| 0 <= i < 3 ==> valid_id(#[trigger] ids[i] as int)
}

pub fn is_valid_meld(tile_ids: &[u8], meld_type: MeldType) -> (r: bool)
    requires
        ids_checkable(tile_ids@, meld_type),
    ensures
        r == spec_is_valid_meld(tile_ids@, meld_type),
{
    let num_tile_ids = tile_ids.len();

    // validate the tile ids for the meld type
    match meld_type {
        MeldType::ClosedTriplet | MeldType::OpenTriplet => {
            if num_tile_ids != 3 {
                return false;
            }
            // all tiles must be the same
            if tile_ids[0] != tile_ids[1] || tile_ids[1] != tile_ids[2] {
                return false;
            }
            return true;
        },
        MeldType::ClosedQuad | MeldType::OpenQuad | MeldType::AddedQuad => {
            if num_tile_ids != 4 {
                return false;
            }
            // all tiles must be the same
            if tile_ids[0] != tile_ids[1] || tile_ids[1] != tile_ids[2] || tile_ids[2]
                != tile_ids[3] {
                return false;
            }
            return true;
        },
        MeldType::Pair => {
            if num_tile_ids != 2 {
                return false;
            }
            // all tiles must be the same
            if tile_ids[0] != tile_ids[1] {
                return false;
            }
            return true;
        },
        MeldType::ClosedSequence | MeldType::OpenSequence => {
            if num_tile_ids != 3 {
                return false;
            }
            let first_tile_suit = get_num_tile_suit(tile_ids[0]);
            let second_tile_suit = get_num_tile_suit(tile_ids[1]);
            let third_tile_suit = get_num_tile_suit(tile_ids[2]);
            if first_tile_suit.is_none() || second_tile_suit.is_none() || third_tile_suit.is_none() {
                // only numbered tiles can form sequences
                proof {
                    assert(!(spec_num_tile_suit(tile_ids@[0]) is Some && spec_num_tile_suit(
                        tile_ids@[1],
                    ) is Some && spec_num_tile_suit(tile_ids@[2]) is Some));
                }
                return false;
            }
            if first_tile_suit.unwrap() != second_tile_suit.unwrap() || second_tile_suit.unwrap()
                != third_tile_suit.unwrap() {
                // tiles must be in same suit
                return false;
            }
            let first_tile_rank = get_num_tile_rank(tile_ids[0]).unwrap();
            let second_tile_rank = get_num_tile_rank(tile_ids[1]).unwrap();
            let third_tile_rank = get_num_tile_rank(tile_ids[2]).unwrap();
            if first_tile_rank == second_tile_rank || second_tile_rank == third_tile_rank
                || first_tile_rank == third_tile_rank {
                // sequence ranks must be distinct
                proof {
                    if first_tile_rank == second_tile_rank {
                        assert(rank_of(tile_ids@[0]) == rank_of(tile_ids@[1]));
                    } else if second_tile_rank == third_tile_rank {
                        assert(rank_of(tile_ids@[1]) == rank_of(tile_ids@[2]));
                    } else {
                        assert(rank_of(tile_ids@[0]) == rank_of(tile_ids@[2]));
                    }
                }
                return false;
            }
            let mut max_rank = first_tile_rank;
            if second_tile_rank > max_rank {
                max_rank = second_tile_rank;
            }
            if third_tile_rank > max_rank {
                max_rank = third_tile_rank;
            }
            let mut min_rank = first_tile_rank;
            if second_tile_rank < min_rank {
                min_rank = second_tile_rank;
            }
            if third_tile_rank < min_rank {
                min_rank = third_tile_rank;
            }
            proof {
                assert(rank_of(tile_ids@[0]) == first_tile_rank);
                assert(rank_of(tile_ids@[1]) == second_tile_rank);
                assert(rank_of(tile_ids@[2]) == third_tile_rank);
            }
            if max_rank - min_rank != 2 {
                // max and min rank must be exactly 2 apart
                return false;
            }
            // three distinct ranks with the max and min exactly 2 apart form a sequence
            true
        },
        MeldType::Isolated => {
            if num_tile_ids != 1 {
                return false;
            }
            true
        },
    }
}

/// How many places of the meld hold a tile.
pub open spec fn count_held(ids: Seq<Option<u8>>) -> int
    decreases ids.len(),
{
    if ids.len() == 0 {
        0
    } else {
        count_held(ids.drop_last()) + if ids.last() is Some {
            1int
        } else {
            0int
        }
    }
}

impl MahjongMeld {
    /// A closed or open meld of the given type holding `tile_ids` (no called tile recorded),
    /// or an error when the tile ids do not form such a meld.
    pub fn from_tile_ids(tile_ids: &[u8], meld_type: MeldType) -> (r: Result<Self, MahjongError>)
        requires
            ids_checkable(tile_ids@, meld_type),
        ensures
            spec_is_valid_meld(tile_ids@, meld_type) <==> r is Ok,
            match r {
                Ok(meld) => {
                    &&& meld.meld_type == meld_type
                    &&& forall|i: int|
                        0 <= i < 4 ==> meld.tile_ids@[i] == if i < tile_ids@.len() {
                            Some(tile_ids@[i])
                        } else {
                            None
                        }
                    &&& meld.added_tile_id is None
                    &&& meld.added_tile_player is None
                },
                Err(e) => e.message@ == "Wrong number of tile_ids for MahjongMeld type"@,
            },
    {
        let num_tile_ids = tile_ids.len();
        if !is_valid_meld(tile_ids, meld_type) {
            return Err(MahjongError::new("Wrong number of tile_ids for MahjongMeld type"));
        }
        let mut meld_tile_ids: [Option<u8>; 4] = [None, None, None, None];
        let mut meld_id: usize = 0;
        while meld_id < num_tile_ids
            invariant
                num_tile_ids == tile_ids@.len(),
                num_tile_ids <= 4,
                meld_id <= num_tile_ids,
                forall|i: int|
                    0 <= i < 4 ==> meld_tile_ids@[i] == if i < meld_id {
                        Some(tile_ids@[i])
                    } else {
                        None
                    },
            decreases num_tile_ids - meld_id,
        {
            meld_tile_ids[meld_id] = Some(tile_ids[meld_id]);
            meld_id += 1;
        }
        Ok(
            Self {
                meld_type: meld_type,
                tile_ids: meld_tile_ids,
                added_tile_id: None,
                added_tile_player: None,
            },
        )
    }

    /// How many tiles the meld holds.
    pub fn num_tiles(&self) -> (r: u8)
        ensures
            r == count_held(self.tile_ids@),
    {
        let mut count: u8 = 0;
        let mut i: usize = 0;
        while i < 4
            invariant
                i <= 4,
                count == count_held(self.tile_ids@.take(i as int)),
                count <= i,
            decreases 4 - i,
        {
            proof {
                assert(self.tile_ids@.take(i + 1).drop_last() =~= self.tile_ids@.take(i as int));
            }
            if self.tile_ids[i].is_some() {
                count += 1;
            }
            i += 1;
        }
        assert(self.tile_ids@.take(4) =~= self.tile_ids@);
        count
    }

    pub fn is_open(&self) -> (r: bool)
        ensures
            r == spec_meld_type_is_open(self.meld_type),
    {
        self.meld_type.is_open()
    }
}

} // verus!
