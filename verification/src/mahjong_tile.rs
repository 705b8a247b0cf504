use vstd::prelude::*;

use crate::mahjong_error::MahjongError;
use vstd::string::StringSliceAdditionalSpecFns;
use vstd::string::StrSliceExecFns;

verus! {

/// One of the numbered mahjong tile suits (i.e. excludes Wind and Dragon suits)
#[derive(Debug, Clone, Copy, PartialEq, Eq, Structural, PartialOrd, Ord, Hash)]
pub enum MahjongTileNumberedSuit {
    Man,
    Pin,
    Sou,
}

pub const NUM_DISTINCT_TILE_VALUES: u8 = 34;

pub const FIRST_PINZU_ID: u8 = 9;

pub const FIRST_SOUZU_ID: u8 = 18;

pub const FIRST_WIND_ID: u8 = 27;

pub const FIRST_HONOR_ID: u8 = 27;

pub const FIRST_DRAGON_ID: u8 = 31;

/// An integer representation of one of the 34 distinct tile values (red fives are not
/// distinguished from normal fives). Ids 0-8 are 1m-9m, 9-17 are 1p-9p, 18-26 are 1s-9s,
/// 27-30 are the winds (1z-4z) and 31-33 are the dragons (5z-7z).
#[derive(Debug, Clone, Copy, PartialEq, Eq, Structural, PartialOrd, Ord, Hash)]
pub struct MahjongTileId(pub u8);

impl From<MahjongTileId> for u8 {
    fn from(id: MahjongTileId) -> (r: u8) {
        id.0
    }
}

impl vstd::std_specs::convert::FromSpecImpl<MahjongTileId> for u8 {
    open spec fn obeys_from_spec() -> bool {
        true
    }

    open spec fn from_spec(id: MahjongTileId) -> u8 {
        id.0
    }
}

impl From<MahjongTileId> for usize {
    fn from(id: MahjongTileId) -> (r: usize) {
        id.0 as usize
    }
}

impl vstd::std_specs::convert::FromSpecImpl<MahjongTileId> for usize {
    open spec fn obeys_from_spec() -> bool {
        true
    }

    open spec fn from_spec(id: MahjongTileId) -> usize {
        id.0 as usize
    }
}

/// A tile id names a tile when it is below 34.
pub open spec fn valid_id(id: int) -> bool {
    0 <= id < 34
}

/// Ids below 27 belong to a numbered suit.
pub open spec fn is_numbered_id(id: int) -> bool {
    0 <= id < 27
}

/// The rank (1-9) of a numbered tile id.
pub open spec fn id_rank(id: int) -> int {
    id % 9 + 1
}

/// The suit of a numbered tile id.
pub open spec fn id_suit(id: int) -> MahjongTileNumberedSuit {
    if id < 9 {
        MahjongTileNumberedSuit::Man
    } else if id < 18 {
        MahjongTileNumberedSuit::Pin
    } else {
        MahjongTileNumberedSuit::Sou
    }
}

/// The id of the first (rank 1) tile of a numbered suit.
pub open spec fn suit_base(suit: MahjongTileNumberedSuit) -> int {
    match suit {
        MahjongTileNumberedSuit::Man => 0,
        MahjongTileNumberedSuit::Pin => 9,
        MahjongTileNumberedSuit::Sou => 18,
    }
}

/// `Some(rank)` for a numbered tile, `None` for an honor tile.
pub open spec fn spec_num_tile_rank(id: u8) -> Option<u8> {
    if is_numbered_id(id as int) {
        Some(id_rank(id as int) as u8)
    } else {
        None
    }
}

/// `Some(suit)` for a numbered tile, `None` for an honor tile.
pub open spec fn spec_num_tile_suit(id: u8) -> Option<MahjongTileNumberedSuit> {
    if is_numbered_id(id as int) {
        Some(id_suit(id as int))
    } else {
        None
    }
}

/// The character of a decimal digit 0-9.
pub open spec fn digit_char(d: int) -> char {
    (48 + d) as char
}

/// The suit letter of a tile id in MSPZ notation.
pub open spec fn suit_char_of_id(id: int) -> char {
    if id < 9 {
        'm'
    } else if id < 18 {
        'p'
    } else if id < 27 {
        's'
    } else {
        'z'
    }
}

/// The rank shown in MSPZ notation: 1-9 for numbered tiles, 1-7 for honor tiles.
pub open spec fn text_rank_of_id(id: int) -> int {
    if id < 27 {
        id_rank(id)
    } else {
        id - 26
    }
}

/// MSPZ notation of a tile id, e.g. 0 -> "1m", 32 -> "6z".
pub open spec fn spec_tile_text(id: int) -> Seq<char> {
    seq![digit_char(text_rank_of_id(id)), suit_char_of_id(id)]
}

/// The text of a one-digit number.
pub(crate) fn digit_text(d: u8) -> (s: &'static str)
    requires
        d <= 9,
    ensures
        s@ == seq![digit_char(d as int)],
{
    match d {
        0 => {
            proof {
                reveal_strlit("0");
            }
            "0"
        },
        1 => {
            proof {
                reveal_strlit("1");
            }
            "1"
        },
        2 => {
            proof {
                reveal_strlit("2");
            }
            "2"
        },
        3 => {
            proof {
                reveal_strlit("3");
            }
            "3"
        },
        4 => {
            proof {
                reveal_strlit("4");
            }
            "4"
        },
        5 => {
            proof {
                reveal_strlit("5");
            }
            "5"
        },
        6 => {
            proof {
                reveal_strlit("6");
            }
            "6"
        },
        7 => {
            proof {
                reveal_strlit("7");
            }
            "7"
        },
        8 => {
            proof {
                reveal_strlit("8");
            }
            "8"
        },
        _ => {
            proof {
                reveal_strlit("9");
            }
            "9"
        },
    }
}

impl MahjongTileId {
    /// The id of the numbered tile of the given rank (1-9) and suit.
    pub fn new_number_tile(rank: u8, suit: MahjongTileNumberedSuit) -> (r: Self)
        requires
            1 <= rank <= 9,
        ensures
            r.0 == suit_base(suit) + rank - 1,
            spec_num_tile_rank(r.0) == Some(rank),
            spec_num_tile_suit(r.0) == Some(suit),
    {
        match suit {
            MahjongTileNumberedSuit::Man => MahjongTileId(rank - 1),
            MahjongTileNumberedSuit::Pin => MahjongTileId(rank - 1 + FIRST_PINZU_ID),
            MahjongTileNumberedSuit::Sou => MahjongTileId(rank - 1 + FIRST_SOUZU_ID),
        }
    }

    /// The id of the honor tile of the given rank (1-4 winds, 5-7 dragons).
    pub fn new_honor_tile(rank: u8) -> (r: Self)
        requires
            1 <= rank <= 7,
        ensures
            r.0 == FIRST_HONOR_ID + rank - 1,
    {
        MahjongTileId(FIRST_HONOR_ID + rank - 1)
    }

    /// Whether this id names one of the 34 tiles.
    pub fn is_valid_id(&self) -> (r: bool)
        ensures
            r == valid_id(self.0 as int),
    {
        self.0 < NUM_DISTINCT_TILE_VALUES
    }

    /// Whether this id belongs to a numbered suit (man, pin or sou).
    pub fn is_numbered_suit(&self) -> (r: bool)
        ensures
            r == is_numbered_id(self.0 as int),
    {
        self.0 < FIRST_HONOR_ID
    }

    /// Returns Some with the rank of the tile (a number from 1-9) if the tile
    /// is in a numbered suit (man, pin, or sou). Returns None otherwise.
    pub fn get_num_tile_rank(&self) -> (r: Option<u8>)
        ensures
            r == spec_num_tile_rank(self.0),
    {
        if !self.is_numbered_suit() {
            None
        } else {
            if self.0 < FIRST_PINZU_ID {
                Some(self.0 + 1)
            } else if self.0 < FIRST_SOUZU_ID {
                Some(self.0 - FIRST_PINZU_ID + 1)
            } else {
                Some(self.0 - FIRST_SOUZU_ID + 1)
            }
        }
    }

    /// Returns Some with the suit of the tile (man, pin, or sou) if the tile
    /// is in a numbered suit. Returns None otherwise.
    pub fn get_num_tile_suit(&self) -> (r: Option<MahjongTileNumberedSuit>)
        ensures
            r == spec_num_tile_suit(self.0),
    {
        if !self.is_numbered_suit() {
            None
        } else if self.0 < FIRST_PINZU_ID {
            Some(MahjongTileNumberedSuit::Man)
        } else if self.0 < FIRST_SOUZU_ID {
            Some(MahjongTileNumberedSuit::Pin)
        } else {
            Some(MahjongTileNumberedSuit::Sou)
        }
    }

    /// Converts the tile id to MSPZ notation i.e. 1 of circles -> "1p", green dragon -> "6z",
    /// east wind -> "1z".
    pub fn to_text(&self) -> (r: String)
        requires
            valid_id(self.0 as int),
        ensures
            r@ == spec_tile_text(self.0 as int),
    {
        let mut tile_string = String::new();
        if self.is_numbered_suit() {
            let rank = self.0 % 9 + 1;
            tile_string.append(digit_text(rank));
            if self.0 < FIRST_PINZU_ID {
                proof {
                    reveal_strlit("m");
                }
                tile_string.append("m");
            } else if self.0 < FIRST_SOUZU_ID {
                proof {
                    reveal_strlit("p");
                }
                tile_string.append("p");
            } else {
                proof {
                    reveal_strlit("s");
                }
                tile_string.append("s");
            }
        } else {
            let rank = self.0 - FIRST_HONOR_ID + 1;
            tile_string.append(digit_text(rank));
            proof {
                reveal_strlit("z");
            }
            tile_string.append("z");
        }
        assert(tile_string@ =~= spec_tile_text(self.0 as int));
        tile_string
    }
}

/// Returns Some with the rank of the tile (a number from 1-9) if the tile
/// is in a numbered suit (man, pin, or sou). Returns None otherwise.
pub fn get_num_tile_rank(tile_id: u8) -> (r: Option<u8>)
    requires
        valid_id(tile_id as int),
    ensures
        r == spec_num_tile_rank(tile_id),
{
    MahjongTileId(tile_id).get_num_tile_rank()
}

/// Returns Some with the suit of the tile (man, pin, or sou) if the tile
/// is in a numbered suit. Returns None otherwise.
pub fn get_num_tile_suit(tile_id: u8) -> (r: Option<MahjongTileNumberedSuit>)
    requires
        valid_id(tile_id as int),
    ensures
        r == spec_num_tile_suit(tile_id),
{
    MahjongTileId(tile_id).get_num_tile_suit()
}


/// The four winds, in seating order (East is the dealer's seat).
#[derive(Debug, Clone, Copy, PartialEq, Eq, Structural, Hash)]
pub enum MahjongWindOrder {
    East,
    South,
    West,
    North,
}

/// The wind of a wind tile id (1z-4z), none for any other id.
pub open spec fn spec_wind_of_id(id: int) -> Option<MahjongWindOrder> {
    if id == 27 {
        Some(MahjongWindOrder::East)
    } else if id == 28 {
        Some(MahjongWindOrder::South)
    } else if id == 29 {
        Some(MahjongWindOrder::West)
    } else if id == 30 {
        Some(MahjongWindOrder::North)
    } else {
        None
    }
}

impl MahjongTileId {
    /// The wind of a wind tile (1z-4z); None for any other tile.
    pub fn get_wind(&self) -> (r: Option<MahjongWindOrder>)
        ensures
            r == spec_wind_of_id(self.0 as int),
    {
        if self.0 == FIRST_WIND_ID {
            Some(MahjongWindOrder::East)
        } else if self.0 == FIRST_WIND_ID + 1 {
            Some(MahjongWindOrder::South)
        } else if self.0 == FIRST_WIND_ID + 2 {
            Some(MahjongWindOrder::West)
        } else if self.0 == FIRST_WIND_ID + 3 {
            Some(MahjongWindOrder::North)
        } else {
            None
        }
    }
}

/// A tile together with whether it is a red five.
#[derive(Debug, Clone, Copy, PartialEq, Eq, Structural, PartialOrd, Ord)]
pub struct MahjongTile {
    pub value: MahjongTileId,
    pub is_red: bool,
}

impl Default for MahjongTile {
    /// Defaults to the red dragon, the prototypical mahjong tile.
    fn default() -> (r: Self)
        ensures
            r.value.0 == NUM_DISTINCT_TILE_VALUES - 1,
            !r.is_red,
    {
        Self { value: MahjongTileId(NUM_DISTINCT_TILE_VALUES - 1), is_red: false }
    }
}

/// Whether a character is a decimal digit.
pub open spec fn is_digit_char(c: char) -> bool {
    48 <= (c as int) <= 57
}

/// The value of a decimal digit character.
pub open spec fn digit_value(c: char) -> int {
    c as int - 48
}

/// Whether a character is one of the suit letters of MSPZ notation.
pub open spec fn is_suit_char(c: char) -> bool {
    c == 'm' || c == 'p' || c == 's' || c == 'z'
}

/// The numbered suit named by one of the letters m, p and s.
pub open spec fn numbered_suit_of_char(c: char) -> MahjongTileNumberedSuit {
    if c == 'm' {
        MahjongTileNumberedSuit::Man
    } else if c == 'p' {
        MahjongTileNumberedSuit::Pin
    } else {
        MahjongTileNumberedSuit::Sou
    }
}

pub open spec fn msg_bad_length() -> Seq<char> {
    "Tile string representation length must be 2"@
}

pub open spec fn msg_bad_first_char() -> Seq<char> {
    "First character must be a number"@
}

pub open spec fn msg_bad_honor_rank() -> Seq<char> {
    "Honor suit rank must be 1-7 (1-4 for winds, 5-7 for dragons)"@
}

pub open spec fn msg_bad_suit() -> Seq<char> {
    "Second char must be m, p, s, or z"@
}

/// The tile named by a rank character followed by a suit character in MSPZ notation
/// ("0" is a red five in a numbered suit), or the message of the error that rejects them.
pub open spec fn spec_parse_tile(rank_char: char, suit_char: char) -> Result<MahjongTile, Seq<char>> {
    if !is_digit_char(rank_char) {
        Err(msg_bad_first_char())
    } else if suit_char == 'm' || suit_char == 'p' || suit_char == 's' {
        let d = digit_value(rank_char);
        let rank = if d == 0 {
            5
        } else {
            d
        };
        Ok(
            MahjongTile {
                value: MahjongTileId((suit_base(numbered_suit_of_char(suit_char)) + rank - 1) as u8),
                is_red: d == 0,
            },
        )
    } else if suit_char == 'z' {
        let d = digit_value(rank_char);
        if 1 <= d <= 7 {
            Ok(MahjongTile { value: MahjongTileId((26 + d) as u8), is_red: false })
        } else {
            Err(msg_bad_honor_rank())
        }
    } else {
        Err(msg_bad_suit())
    }
}

/// Whether an executable parse result agrees with a specified one.
pub open spec fn parse_result_matches(
    r: Result<MahjongTile, MahjongError>,
    expected: Result<MahjongTile, Seq<char>>,
) -> bool {
    match (r, expected) {
        (Ok(a), Ok(b)) => a == b,
        (Err(e), Err(m)) => e.message@ == m,
        _ => false,
    }
}

/// Parses a tile from its rank character and suit character.
fn tile_from_chars(rank_char: char, suit_char: char) -> (r: Result<MahjongTile, MahjongError>)
    ensures
        parse_result_matches(r, spec_parse_tile(rank_char, suit_char)),
{
    if !(rank_char >= '0' && rank_char <= '9') {
        return Err(MahjongError::new("First character must be a number"));
    }
    let mut rank_num: u8 = (rank_char as u32 - 48) as u8;
    if suit_char == 'm' || suit_char == 'p' || suit_char == 's' {
        let tile_suit = if suit_char == 'm' {
            MahjongTileNumberedSuit::Man
        } else if suit_char == 'p' {
            MahjongTileNumberedSuit::Pin
        } else {
            MahjongTileNumberedSuit::Sou
        };
        let mut is_red = false;
        if rank_num == 0 {
            is_red = true;
            rank_num = 5;
        }
        let value = MahjongTileId::new_number_tile(rank_num, tile_suit);
        Ok(MahjongTile { value, is_red })
    } else if suit_char == 'z' {
        if rank_num >= 1 && rank_num <= 7 {
            Ok(MahjongTile { value: MahjongTileId::new_honor_tile(rank_num), is_red: false })
        } else {
            Err(
                MahjongError::new("Honor suit rank must be 1-7 (1-4 for winds, 5-7 for dragons)"),
            )
        }
    } else {
        Err(MahjongError::new("Second char must be m, p, s, or z"))
    }
}

impl MahjongTile {
    /// Parses the MSPZ notation i.e. 1 of circles -> "1p", green dragon -> "6z", east wind = "1z".
    /// Accepts red-fives as "0" i.e. red-five-man is "0m", vs. five-man is "5m".
    /// Returns an error if the string isn't valid.
    pub fn from_text(tile_string: &str) -> (r: Result<Self, MahjongError>)
        ensures
            !(tile_string.len() == 2 && tile_string@.len() == 2) ==> (r matches Err(e)
                && e.message@ == msg_bad_length()),
            tile_string.len() == 2 && tile_string@.len() == 2 ==> parse_result_matches(
                r,
                spec_parse_tile(tile_string@[0], tile_string@[1]),
            ),
    {
        // two bytes that are not two characters (one wide character) are no tile either
        if tile_string.len() != 2 || tile_string.unicode_len() != 2 {
            return Err(MahjongError::new("Tile string representation length must be 2"));
        }
        let first_char = tile_string.get_char(0);
        let second_char = tile_string.get_char(1);
        tile_from_chars(first_char, second_char)
    }
}

/// Parses a tile in MSPZ notation and returns its id (red fives map to the id of the five).
pub fn get_id_from_tile_text(tile_string: &str) -> (r: Result<MahjongTileId, MahjongError>)
    ensures
        !(tile_string.len() == 2 && tile_string@.len() == 2) ==> (r matches Err(e)
            && e.message@ == msg_bad_length()),
        tile_string.len() == 2 && tile_string@.len() == 2 ==> match (
            r,
            spec_parse_tile(tile_string@[0], tile_string@[1]),
        ) {
            (Ok(a), Ok(b)) => a == b.value,
            (Err(e), Err(m)) => e.message@ == m,
            _ => false,
        },
{
    match MahjongTile::from_text(tile_string) {
        Ok(tile) => Ok(tile.value),
        Err(e) => Err(e),
    }
}

/// MSPZ notation of a tile id.
pub fn get_tile_text_from_id(tile_id: u8) -> (r: String)
    requires
        valid_id(tile_id as int),
    ensures
        r@ == spec_tile_text(tile_id as int),
{
    MahjongTileId(tile_id).to_text()
}


/// The tiles named by a string in condensed MSPZ notation (e.g. "123m44z"), where `pending`
/// holds the rank characters read since the last suit letter. Rank characters left without a
/// following suit letter name no tile.
pub open spec fn spec_tiles_from_text(s: Seq<char>, pending: Seq<char>) -> Seq<MahjongTile>
    decreases s.len(),
{
    if s.len() == 0 {
        seq![]
    } else if is_suit_char(s[0]) {
        pending.map_values(|c: char| spec_parse_tile(c, s[0])->Ok_0) + spec_tiles_from_text(
            s.drop_first(),
            seq![],
        )
    } else {
        spec_tiles_from_text(s.drop_first(), pending.push(s[0]))
    }
}

/// Every tile that a condensed MSPZ string names is a valid tile; when `nonempty_groups`
/// holds, every suit letter must also follow at least one rank character.
pub open spec fn tiles_text_valid(s: Seq<char>, pending: Seq<char>, nonempty_groups: bool) -> bool
    decreases s.len(),
{
    if s.len() == 0 {
        true
    } else if is_suit_char(s[0]) {
        &&& (forall|i: int| 0 <= i < pending.len() ==> spec_parse_tile(pending[i], s[0]) is Ok)
        &&& (nonempty_groups ==> pending.len() > 0)
        &&& tiles_text_valid(s.drop_first(), seq![], nonempty_groups)
    } else {
        tiles_text_valid(s.drop_first(), pending.push(s[0]), nonempty_groups)
    }
}

proof fn lemma_skip_step<A>(s: Seq<A>, i: int)
    requires
        0 <= i < s.len(),
    ensures
        s.skip(i).len() > 0,
        s.skip(i)[0] == s[i],
        s.skip(i).drop_first() =~= s.skip(i + 1),
{
}

/// Shared loop of the string parsers: the tiles named by `tile_string`.
fn parse_tiles_text(tile_string: &str, nonempty_groups: bool) -> (tiles: Vec<MahjongTile>)
    requires
        tiles_text_valid(tile_string@, seq![], nonempty_groups),
    ensures
        tiles@ == spec_tiles_from_text(tile_string@, seq![]),
{
    let mut tiles: Vec<MahjongTile> = Vec::new();
    let mut tile_ranks_so_far: Vec<char> = Vec::new();
    let n = tile_string.unicode_len();
    let mut i: usize = 0;
    assert(tile_string@.skip(0) =~= tile_string@);
    while i < n
        invariant
            n == tile_string@.len(),
            i <= n,
            tiles_text_valid(tile_string@.skip(i as int), tile_ranks_so_far@, nonempty_groups),
            tiles@ + spec_tiles_from_text(tile_string@.skip(i as int), tile_ranks_so_far@)
                == spec_tiles_from_text(tile_string@, seq![]),
        decreases n - i,
    {
        let c = tile_string.get_char(i);
        proof {
            lemma_skip_step(tile_string@, i as int);
        }
        if c == 'm' || c == 'p' || c == 's' || c == 'z' {
            let ghost old_tiles = tiles@;
            let ghost added = tile_ranks_so_far@.map_values(
                |r: char| spec_parse_tile(r, c)->Ok_0,
            );
            let mut j: usize = 0;
            while j < tile_ranks_so_far.len()
                invariant
                    j <= tile_ranks_so_far.len(),
                    added == tile_ranks_so_far@.map_values(|r: char| spec_parse_tile(r, c)->Ok_0),
                    forall|k: int|
                        0 <= k < tile_ranks_so_far@.len() ==> spec_parse_tile(
                            tile_ranks_so_far@[k],
                            c,
                        ) is Ok,
                    tiles@ == old_tiles + added.take(j as int),
                decreases tile_ranks_so_far.len() - j,
            {
                let tile = tile_from_chars(tile_ranks_so_far[j], c).unwrap();
                tiles.push(tile);
                proof {
                    assert(added.take(j + 1) =~= added.take(j as int).push(added[j as int]));
                }
                j += 1;
            }
            assert(added.take(j as int) =~= added);
            assert(tiles@ + spec_tiles_from_text(tile_string@.skip(i + 1), seq![]) =~= old_tiles
                + spec_tiles_from_text(tile_string@.skip(i as int), tile_ranks_so_far@));
            tile_ranks_so_far = Vec::new();
        } else {
            tile_ranks_so_far.push(c);
        }
        i += 1;
    }
    assert(tile_string@.skip(i as int) =~= seq![]);
    assert(tiles@ =~= spec_tiles_from_text(tile_string@, seq![]));
    tiles
}

/// Generates the list of `MahjongTile` objects named by a string in condensed MSPZ notation.
pub fn get_tiles_from_string(tile_string: &str) -> (tiles: Vec<MahjongTile>)
    requires
        tiles_text_valid(tile_string@, seq![], false),
    ensures
        tiles@ == spec_tiles_from_text(tile_string@, seq![]),
{
    parse_tiles_text(tile_string, false)
}

/// The tile ids named by a string in condensed MSPZ notation.
pub open spec fn spec_tile_ids_from_text(s: Seq<char>) -> Seq<MahjongTileId> {
    spec_tiles_from_text(s, seq![]).map_values(|t: MahjongTile| t.value)
}

/// Generates the list of `MahjongTileId` objects named by a string in condensed MSPZ notation.
pub fn get_tile_ids_from_string(tiles_string: &str) -> (tile_ids: Vec<MahjongTileId>)
    requires
        tiles_text_valid(tiles_string@, seq![], true),
    ensures
        tile_ids@ == spec_tile_ids_from_text(tiles_string@),
{
    let tiles = parse_tiles_text(tiles_string, true);
    let mut tile_ids: Vec<MahjongTileId> = Vec::new();
    let mut i: usize = 0;
    while i < tiles.len()
        invariant
            i <= tiles.len(),
            tile_ids@ =~= tiles@.take(i as int).map_values(|t: MahjongTile| t.value),
        decreases tiles.len() - i,
    {
        tile_ids.push(tiles[i].value);
        assert(tiles@.take(i + 1).map_values(|t: MahjongTile| t.value) =~= tiles@.take(
            i as int,
        ).map_values(|t: MahjongTile| t.value).push(tiles@[i as int].value));
        i += 1;
    }
    assert(tiles@.take(i as int) =~= tiles@);
    tile_ids
}

/// The MSPZ text of each tile id.
pub fn tile_ids_to_strings(tile_ids: &Vec<u8>) -> (r: Vec<String>)
    requires
        forall|i: int| 0 <= i < tile_ids.len() ==> valid_id(tile_ids[i] as int),
    ensures
        r.len() == tile_ids.len(),
        forall|i: int| 0 <= i < r.len() ==> r[i]@ == spec_tile_text(tile_ids[i] as int),
{
    let mut r: Vec<String> = Vec::new();
    let mut i: usize = 0;
    while i < tile_ids.len()
        invariant
            i <= tile_ids.len(),
            forall|k: int| 0 <= k < tile_ids.len() ==> valid_id(tile_ids[k] as int),
            r.len() == i,
            forall|k: int| 0 <= k < i ==> r[k]@ == spec_tile_text(tile_ids[k] as int),
        decreases tile_ids.len() - i,
    {
        r.push(get_tile_text_from_id(tile_ids[i]));
        i += 1;
    }
    r
}


/// A compact representation of a set of tiles: the value at index i is how many tiles of
/// tile_id = i are in the set. For example [1, 0, 2, 0, ..., 0] represents [1m, 3m, 3m].
#[derive(Debug, Clone, Copy, PartialEq, Eq, PartialOrd, Ord, Hash)]
pub struct MahjongTileCountArray(pub [u8; 34]);

impl Default for MahjongTileCountArray {
    fn default() -> (r: Self)
        ensures
            forall|i: int| 0 <= i < 34 ==> r.0[i] == 0,
    {
        MahjongTileCountArray([0u8; 34])
    }
}

/// Four copies of every tile: the full set of tiles of a game without red fives.
pub fn four_of_each_tile_count_array() -> (r: MahjongTileCountArray)
    ensures
        forall|i: int| 0 <= i < 34 ==> r.0[i] == 4,
{
    MahjongTileCountArray([4u8; 34])
}

/// The total of a sequence of counts.
pub open spec fn count_sum(c: Seq<u8>) -> int
    decreases c.len(),
{
    if c.len() == 0 {
        0
    } else {
        count_sum(c.drop_last()) + c.last()
    }
}

/// Every tile id of a count array, each repeated as often as it is counted, in ascending order.
pub open spec fn expand_counts(c: Seq<u8>) -> Seq<MahjongTileId>
    decreases c.len(),
{
    if c.len() == 0 {
        seq![]
    } else {
        expand_counts(c.drop_last()) + Seq::new(
            c.last() as nat,
            |k: int| MahjongTileId((c.len() - 1) as u8),
        )
    }
}

/// The tile ids with a nonzero count, in ascending order.
pub open spec fn distinct_counted_ids(c: Seq<u8>) -> Seq<MahjongTileId>
    decreases c.len(),
{
    if c.len() == 0 {
        seq![]
    } else if c.last() > 0 {
        distinct_counted_ids(c.drop_last()).push(MahjongTileId((c.len() - 1) as u8))
    } else {
        distinct_counted_ids(c.drop_last())
    }
}

pub proof fn lemma_count_sum_bound(c: Seq<u8>, bound: int)
    requires
        forall|i: int| 0 <= i < c.len() ==> c[i] <= bound,
        bound >= 0,
    ensures
        0 <= count_sum(c) <= bound * c.len(),
    decreases c.len(),
{
    if c.len() > 0 {
        lemma_count_sum_bound(c.drop_last(), bound);
        assert(bound * c.len() == bound * (c.len() - 1) + bound) by (nonlinear_arith)
            requires
                c.len() >= 1,
        ;
    }
}

pub fn get_total_tiles_from_count_array(tile_count_array: MahjongTileCountArray) -> (r: usize)
    ensures
        r == count_sum(tile_count_array.0@),
{
    let mut total_tiles: usize = 0;
    let mut tile_idx: usize = 0;
    while tile_idx < 34
        invariant
            tile_idx <= 34,
            total_tiles == count_sum(tile_count_array.0@.take(tile_idx as int)),
            total_tiles <= 255 * tile_idx,
        decreases 34 - tile_idx,
    {
        assert(tile_count_array.0@.take(tile_idx + 1).drop_last() =~= tile_count_array.0@.take(
            tile_idx as int,
        ));
        total_tiles = total_tiles + tile_count_array.0[tile_idx] as usize;
        tile_idx += 1;
    }
    assert(tile_count_array.0@.take(34) =~= tile_count_array.0@);
    total_tiles
}

pub fn get_tile_ids_from_count_array(tile_count_array: MahjongTileCountArray) -> (r: Vec<
    MahjongTileId,
>)
    ensures
        r@ == expand_counts(tile_count_array.0@),
{
    let mut tile_ids: Vec<MahjongTileId> = Vec::new();
    let mut tile_id: u8 = 0;
    while tile_id < NUM_DISTINCT_TILE_VALUES
        invariant
            tile_id <= 34,
            tile_ids@ == expand_counts(tile_count_array.0@.take(tile_id as int)),
        decreases 34 - tile_id,
    {
        let tile_idx = tile_id as usize;
        let ghost before = tile_ids@;
        let count = tile_count_array.0[tile_idx];
        let mut k: u8 = 0;
        while k < count
            invariant
                k <= count,
                tile_ids@ =~= before + Seq::new(k as nat, |j: int| MahjongTileId(tile_id)),
            decreases count - k,
        {
            tile_ids.push(MahjongTileId(tile_id));
            k += 1;
        }
        assert(tile_count_array.0@.take(tile_id + 1).drop_last() =~= tile_count_array.0@.take(
            tile_id as int,
        ));
        tile_id += 1;
    }
    assert(tile_count_array.0@.take(34) =~= tile_count_array.0@);
    tile_ids
}

pub fn get_distinct_tile_ids_from_count_array(tile_count_array: MahjongTileCountArray) -> (r: Vec<
    MahjongTileId,
>)
    ensures
        r@ == distinct_counted_ids(tile_count_array.0@),
{
    let mut distinct_tile_ids: Vec<MahjongTileId> = Vec::new();
    let mut tile_id: u8 = 0;
    while tile_id < NUM_DISTINCT_TILE_VALUES
        invariant
            tile_id <= 34,
            distinct_tile_ids@ == distinct_counted_ids(tile_count_array.0@.take(tile_id as int)),
        decreases 34 - tile_id,
    {
        assert(tile_count_array.0@.take(tile_id + 1).drop_last() =~= tile_count_array.0@.take(
            tile_id as int,
        ));
        if tile_count_array.0[tile_id as usize] > 0 {
            distinct_tile_ids.push(MahjongTileId(tile_id));
        }
        tile_id += 1;
    }
    assert(tile_count_array.0@.take(34) =~= tile_count_array.0@);
    distinct_tile_ids
}


pub proof fn lemma_count_sum_update(c: Seq<u8>, i: int, v: u8)
    requires
        0 <= i < c.len(),
    ensures
        count_sum(c.update(i, v)) == count_sum(c) - c[i] + v,
    decreases c.len(),
{
    if i == c.len() - 1 {
        assert(c.update(i, v).drop_last() =~= c.drop_last());
    } else {
        lemma_count_sum_update(c.drop_last(), i, v);
        assert(c.update(i, v).drop_last() =~= c.drop_last().update(i, v));
    }
}

pub proof fn lemma_count_sum_nonneg(c: Seq<u8>)
    ensures
        count_sum(c) >= 0,
    decreases c.len(),
{
    if c.len() > 0 {
        lemma_count_sum_nonneg(c.drop_last());
    }
}

/// A sequence of counts whose total is zero holds only zeros.
pub proof fn lemma_count_sum_zero(c: Seq<u8>, i: int)
    requires
        0 <= i < c.len(),
        c[i] > 0,
    ensures
        count_sum(c) > 0,
    decreases c.len(),
{
    lemma_count_sum_nonneg(c.drop_last());
    if i < c.len() - 1 {
        lemma_count_sum_zero(c.drop_last(), i);
    }
}

/// Counts that are pointwise no larger have no larger total, and a smaller total when one of
/// them is smaller.
pub proof fn lemma_count_sum_pointwise(a: Seq<u8>, b: Seq<u8>, i: int)
    requires
        a.len() == b.len(),
        forall|k: int| 0 <= k < a.len() ==> #[trigger] a[k] <= b[k],
    ensures
        count_sum(a) <= count_sum(b),
        0 <= i < a.len() && a[i] < b[i] ==> count_sum(a) < count_sum(b),
    decreases a.len(),
{
    if a.len() > 0 {
        assert(a[a.len() - 1] <= b[b.len() - 1]);
        lemma_count_sum_pointwise(a.drop_last(), b.drop_last(), i);
    }
}

/// Reading back the MSPZ text of a tile id gives the same tile id (written as a plain tile,
/// never as a red five).
pub proof fn law_tile_text_round_trip(id: int)
    requires
        valid_id(id),
    ensures
        spec_parse_tile(spec_tile_text(id)[0], spec_tile_text(id)[1]) == Ok::<
            MahjongTile,
            Seq<char>,
        >(MahjongTile { value: MahjongTileId(id as u8), is_red: false }),
{
    let text = spec_tile_text(id);
    assert(text[0] == digit_char(text_rank_of_id(id)));
    assert(text[1] == suit_char_of_id(id));
    assert(1 <= text_rank_of_id(id) <= 9);
    assert(digit_value(digit_char(text_rank_of_id(id))) == text_rank_of_id(id));
}

/// Every counted tile appears once in the expanded list: the list is as long as the total of
/// the counts.
pub proof fn law_expanded_counts_total(c: Seq<u8>)
    ensures
        expand_counts(c).len() == count_sum(c),
    decreases c.len(),
{
    if c.len() > 0 {
        law_expanded_counts_total(c.drop_last());
    }
}

} // verus!
