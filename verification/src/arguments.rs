//! What a run was asked for, and whether it can be done.

use crate::text;
use crate::text::{decimal, parse_number, same, split_once, trim, NumberError};
use vstd::arithmetic::power2::pow2;
use vstd::prelude::*;
use vstd::string::*;

verus! {

/// One more than the coarsest level anything could store.
pub const LEVEL_LIMIT: u32 = 24;

/// What is said of a text that is not a whole number.
pub open spec fn complaint(error: NumberError) -> Seq<char> {
    match error {
        NumberError::Empty => "cannot parse integer from empty string"@,
        NumberError::InvalidDigit => "invalid digit found in string"@,
        NumberError::TooLarge => "number too large to fit in target type"@,
    }
}

/// What is said of half an extent that cannot be read.
pub open spec fn unreadable(part: Seq<char>, error: NumberError) -> Seq<char> {
    "`"@ + part + "` is not a whole number of texels: "@ + complaint(error)
}

/// The extent a text spells, or what is said of it.
pub open spec fn extent_spelled(spelled: Seq<char>) -> Result<(u32, u32), Seq<char>> {
    match text::first_of(spelled, 'x', 'X', 0) {
        None => Err("expected `WIDTHxHEIGHT`, got `"@ + spelled + "`"@),
        Some(at) => {
            let (before, after) = (spelled.take(at), spelled.skip(at + 1));
            match text::number_spelled(text::trimmed(before)) {
                Err(error) => Err(unreadable(before, error)),
                Ok(width) => match text::number_spelled(text::trimmed(after)) {
                    Err(error) => Err(unreadable(after, error)),
                    Ok(height) => if width == 0 || height == 0 {
                        Err("`"@ + spelled + "` covers no ground"@)
                    } else {
                        Ok((width, height))
                    },
                },
            }
        },
    }
}

/// Says what is wrong with half an extent.
fn unreadable_part(part: &str, error: NumberError) -> (message: String)
    ensures
        message@ == unreadable(part@, error),
{
    let mut message = String::from_str("`");
    message.append(part);
    message.append("` is not a whole number of texels: ");
    message.append(
        match error {
            NumberError::Empty => "cannot parse integer from empty string",
            NumberError::InvalidDigit => "invalid digit found in string",
            NumberError::TooLarge => "number too large to fit in target type",
        },
    );
    message
}

/// Reads an extent written as `WIDTHxHEIGHT`.
pub fn parse_extent(spelled: &str) -> (extent: Result<[u32; 2], String>)
    ensures
        match extent {
            Ok(extent) => extent_spelled(spelled@) == Ok::<(u32, u32), Seq<char>>((extent@[0], extent@[1])),
            Err(message) => extent_spelled(spelled@) == Err::<(u32, u32), Seq<char>>(message@),
        },
{
    let (before, after) = match split_once(spelled, 'x', 'X') {
        Some(parts) => parts,
        None => {
            let mut message = String::from_str("expected `WIDTHxHEIGHT`, got `");
            message.append(spelled);
            message.append("`");
            return Err(message);
        },
    };
    let width: u32 = match parse_number(trim(before)) {
        Ok(width) => width,
        Err(error) => {
            return Err(unreadable_part(before, error));
        },
    };
    let height: u32 = match parse_number(trim(after)) {
        Ok(height) => height,
        Err(error) => {
            return Err(unreadable_part(after, error));
        },
    };
    if width == 0 || height == 0 {
        let mut message = String::from_str("`");
        message.append(spelled);
        message.append("` covers no ground");
        return Err(message);
    }
    Ok([width, height])
}

/// Cuts `easting,northing` in two at the first comma.
pub fn origin_parts(spelled: &str) -> (parts: Result<(&str, &str), String>)
    ensures
        match parts {
            Ok((easting, northing)) => {
                &&& text::first_of(spelled@, ',', ',', 0) == Some(easting@.len() as int)
                &&& easting@ == spelled@.take(easting@.len() as int)
                &&& northing@ == spelled@.skip(easting@.len() as int + 1)
            },
            Err(message) => {
                &&& text::first_of(spelled@, ',', ',', 0) is None
                &&& message@ == "expected `easting,northing`, got `"@ + spelled@ + "`"@
            },
        },
{
    match split_once(spelled, ',', ',') {
        Some(parts) => Ok(parts),
        None => {
            let mut message = String::from_str("expected `easting,northing`, got `");
            message.append(spelled);
            message.append("`");
            Err(message)
        },
    }
}

/// Whether a product was asked for: all of them are, where none is named.
pub fn wants(products: &Vec<String>, name: &str) -> (yes: bool)
    ensures
        yes <==> (products@.len() == 0 || exists|i: int| 0 <= i < products@.len() && #[trigger] products@[i]@
            == name@),
{
    if products.len() == 0 {
        return true;
    }
    let mut i: usize = 0;
    while i < products.len()
        invariant
            i <= products@.len(),
            forall|k: int| 0 <= k < i ==> #[trigger] products@[k]@ != name@,
        decreases products@.len() - i,
    {
        if same(products[i].as_str(), name) {
            return true;
        }
        i = i + 1;
    }
    false
}

/// What a run is asked for, as far as it can be refused on it.
///
/// The measures in metres come as they are written; what is asked of them is
/// answered beside them.
pub struct Request<'a> {
    /// The coarsest level to store.
    pub max_level: u32,
    /// How much ground to cover, in texels of the finest level.
    pub extent: [u32; 2],
    /// The north-west corner, easting and northing.
    pub origin: [&'a str; 2],
    /// Whether each of them is a whole number of the coarsest level's texels.
    pub on_lattice: [bool; 2],
    /// Where the highest peak ends up.
    pub peak: &'a str,
    /// Where the lowest valley floor ends up.
    pub valley: &'a str,
    /// Whether the peak stands above the valley.
    pub rises: bool,
    /// The ground one cell of the erosion grid covers.
    pub cell: &'a str,
    /// Whether that is a finite metre or more.
    pub coarse: bool,
}

impl<'a> Request<'a> {
    /// Texels of the finest level along one of the coarsest.
    pub open spec fn step(self) -> nat {
        pow2(self.max_level as nat)
    }

    /// What the run is refused for: the first of these that holds.
    pub open spec fn refusal(self) -> Option<Seq<char>> {
        let level = text::decimal_of(self.max_level as nat);
        let step = text::decimal_of(self.step());
        if self.max_level >= LEVEL_LIMIT {
            Some("a max level of "@ + level + " is not a level anything could store"@)
        } else if self.extent@[0] as nat % self.step() != 0 || self.extent@[1] as nat % self.step() != 0 {
            Some(
                "an extent of "@ + text::decimal_of(self.extent@[0] as nat) + " x "@ + text::decimal_of(
                    self.extent@[1] as nat,
                ) + " texels does not divide into level "@ + level + " texels of "@ + step + " m"@,
            )
        } else if !self.on_lattice@[0] {
            Some(off_lattice("easting"@, self.origin@[0]@, level, step))
        } else if !self.on_lattice@[1] {
            Some(off_lattice("northing"@, self.origin@[1]@, level, step))
        } else if !self.rises {
            Some("a peak at "@ + self.peak@ + " m is not above a valley floor at "@ + self.valley@ + " m"@)
        } else if !self.coarse {
            Some("an erosion grid of "@ + self.cell@ + " m is finer than the terrain it shapes"@)
        } else {
            None
        }
    }
}

/// What is said of a corner off the coarsest level's lattice.
pub open spec fn off_lattice(axis: Seq<char>, metres: Seq<char>, level: Seq<char>, step: Seq<char>) -> Seq<char> {
    "an origin "@ + axis + " of "@ + metres + " m is not a whole number of level-"@ + level + " texels of "@ + step
        + " m"@
}

/// Says what is wrong with a corner off the coarsest level's lattice.
fn off_lattice_message(axis: &str, metres: &str, level: &str, step: &str) -> (message: String)
    ensures
        message@ == off_lattice(axis@, metres@, level@, step@),
{
    let mut message = String::from_str("an origin ");
    message.append(axis);
    message.append(" of ");
    message.append(metres);
    message.append(" m is not a whole number of level-");
    message.append(level);
    message.append(" texels of ");
    message.append(step);
    message.append(" m");
    message
}

/// How many texels of the finest level lie along one of a coarser level.
pub fn step_of(level: u32) -> (step: u32)
    requires
        level < LEVEL_LIMIT,
    ensures
        step == pow2(level as nat),
        step > 0,
{
    proof {
        vstd::arithmetic::power2::lemma2_to64();
        vstd::arithmetic::power2::lemma_pow2_pos(level as nat);
        if level < 23 {
            vstd::arithmetic::power2::lemma_pow2_strictly_increases(level as nat, 23);
        }
        vstd::bits::lemma_u32_shl_is_mul(1, level);
    }
    1u32 << level
}

/// Refuses what would make a tree nothing can open.
pub fn validate(request: &Request) -> (done: Result<(), String>)
    ensures
        match done {
            Ok(()) => request.refusal() is None,
            Err(message) => request.refusal() == Some(message@),
        },
{
    let level = decimal(request.max_level);
    if request.max_level >= LEVEL_LIMIT {
        let mut message = String::from_str("a max level of ");
        message.append(level.as_str());
        message.append(" is not a level anything could store");
        return Err(message);
    }
    let step: u32 = step_of(request.max_level);
    let step_text = decimal(step);
    if request.extent[0] % step != 0 || request.extent[1] % step != 0 {
        let mut message = String::from_str("an extent of ");
        message.append(decimal(request.extent[0]).as_str());
        message.append(" x ");
        message.append(decimal(request.extent[1]).as_str());
        message.append(" texels does not divide into level ");
        message.append(level.as_str());
        message.append(" texels of ");
        message.append(step_text.as_str());
        message.append(" m");
        return Err(message);
    }
    if !request.on_lattice[0] {
        return Err(off_lattice_message("easting", request.origin[0], level.as_str(), step_text.as_str()));
    }
    if !request.on_lattice[1] {
        return Err(off_lattice_message("northing", request.origin[1], level.as_str(), step_text.as_str()));
    }
    if !request.rises {
        let mut message = String::from_str("a peak at ");
        message.append(request.peak);
        message.append(" m is not above a valley floor at ");
        message.append(request.valley);
        message.append(" m");
        return Err(message);
    }
    if !request.coarse {
        let mut message = String::from_str("an erosion grid of ");
        message.append(request.cell);
        message.append(" m is finer than the terrain it shapes");
        return Err(message);
    }
    Ok(())
}

/// Which levels a product stores.
#[derive(Clone, Copy, Debug, PartialEq, Eq, Structural)]
pub struct Levels {
    /// The finest.
    pub base_level: u32,
    /// How many there are, from there up.
    pub level_count: u32,
}

impl Levels {
    /// One more than the coarsest level.
    pub open spec fn end(self) -> int {
        self.base_level + self.level_count
    }

    /// The levels from `base_level` to `max_level`, both stored.
    pub fn spanning(base_level: u32, max_level: u32) -> (levels: Levels)
        requires
            base_level <= max_level + 1,
            max_level < u32::MAX,
        ensures
            levels.base_level == base_level,
            levels.end() == max_level + 1,
    {
        Levels { base_level, level_count: max_level + 1 - base_level }
    }

    /// The coarsest level.
    pub fn max_level(self) -> (level: u32)
        requires
            0 < self.end() <= u32::MAX,
        ensures
            level == self.end() - 1,
    {
        if self.level_count == 0 {
            self.base_level - 1
        } else {
            self.base_level + (self.level_count - 1)
        }
    }

    /// The levels left when everything finer than `asked` is left behind, or
    /// `None` where nothing is stored that coarse.
    pub fn from_level(self, asked: u32) -> (levels: Option<Levels>)
        requires
            0 < self.level_count,
            self.end() <= u32::MAX,
        ensures
            match levels {
                Some(levels) => {
                    &&& asked < self.end()
                    &&& levels.base_level == if asked > self.base_level {
                        asked
                    } else {
                        self.base_level
                    }
                    &&& levels.end() == self.end()
                },
                None => asked >= self.end(),
            },
    {
        let max_level: u32 = self.max_level();
        if asked > max_level {
            return None;
        }
        let base: u32 = if asked > self.base_level {
            asked
        } else {
            self.base_level
        };
        Some(Levels::spanning(base, max_level))
    }
}

proof fn lemma_digits_are_not_trimmed(number: nat)
    ensures
        text::trimmed(text::decimal_of(number)) == text::decimal_of(number),
        forall|k: int|
            0 <= k < text::decimal_of(number).len() ==> 48 <= (#[trigger] text::decimal_of(number)[k]) as int <= 57,
{
    let digits = text::decimal_of(number);
    text::a_number_is_written_in_digits(number);
    let (from, to) = text::trimming_takes_off_white_space_alone(digits);
    if from > 0 {
        assert(text::is_white(digits[0]));
        assert(48 <= digits[0] as int <= 57);
    }
    if to < digits.len() {
        assert(text::is_white(digits[digits.len() - 1]));
        assert(48 <= digits[digits.len() - 1] as int <= 57);
    }
    assert(digits.subrange(0, digits.len() as int) =~= digits);
}

/// An extent is read back from its two numbers with a cross of either case
/// between them, unless it covers no ground.
pub proof fn an_extent_reads_back(width: nat, height: nat, cross: char)
    requires
        width <= u32::MAX,
        height <= u32::MAX,
        cross == 'x' || cross == 'X',
    ensures
        ({
            let spelled = text::decimal_of(width) + seq![cross] + text::decimal_of(height);
            &&& width > 0 && height > 0 ==> extent_spelled(spelled) == Ok::<(u32, u32), Seq<char>>(
                (width as u32, height as u32),
            )
            &&& width == 0 || height == 0 ==> extent_spelled(spelled) is Err
        }),
{
    let (before, after) = (text::decimal_of(width), text::decimal_of(height));
    let spelled = before + seq![cross] + after;
    let at = before.len() as int;
    lemma_digits_are_not_trimmed(width);
    lemma_digits_are_not_trimmed(height);
    text::a_number_reads_back(width);
    text::a_number_reads_back(height);
    text::a_text_is_split_at_the_first(spelled, 'x', 'X', 0);
    assert(spelled[at] == cross);
    assert forall|k: int| 0 <= k < at implies #[trigger] spelled[k] != 'x' && spelled[k] != 'X' by {
        assert(spelled[k] == before[k]);
        assert(48 <= before[k] as int <= 57);
    }
    assert(text::first_of(spelled, 'x', 'X', 0) == Some(at));
    assert(spelled.take(at) =~= before);
    assert(spelled.skip(at + 1) =~= after);
}

/// A text without a cross is no extent, and neither is one where what stands on
/// either side of the first cross, white space apart, is no number; what is said
/// of it quotes the part that is at fault.
pub proof fn what_is_no_extent_is_quoted(before: Seq<char>, cross: char, after: Seq<char>)
    requires
        forall|k: int| 0 <= k < before.len() ==> #[trigger] before[k] != 'x' && before[k] != 'X',
        cross == 'x' || cross == 'X',
    ensures
        extent_spelled(before) == Err::<(u32, u32), Seq<char>>(
            "expected `WIDTHxHEIGHT`, got `"@ + before + "`"@,
        ),
        ({
            let spelled = before + seq![cross] + after;
            let (width, height) = (
                text::number_spelled(text::trimmed(before)),
                text::number_spelled(text::trimmed(after)),
            );
            &&& width matches Err(error) ==> extent_spelled(spelled) == Err::<(u32, u32), Seq<char>>(
                "`"@ + before + "` is not a whole number of texels: "@ + complaint(error),
            )
            &&& width is Ok ==> (height matches Err(error) ==> extent_spelled(spelled) == Err::<
                (u32, u32),
                Seq<char>,
            >("`"@ + after + "` is not a whole number of texels: "@ + complaint(error)))
            &&& width is Ok && height is Ok ==> (extent_spelled(spelled) is Ok <==> width->Ok_0 > 0
                && height->Ok_0 > 0)
            &&& extent_spelled(spelled) matches Ok(extent) ==> width == Ok::<u32, NumberError>(extent.0) && height
                == Ok::<u32, NumberError>(extent.1)
        }),
        complaint(NumberError::Empty) == "cannot parse integer from empty string"@,
        complaint(NumberError::InvalidDigit) == "invalid digit found in string"@,
        complaint(NumberError::TooLarge) == "number too large to fit in target type"@,
{
    let spelled = before + seq![cross] + after;
    let at = before.len() as int;
    text::a_text_is_split_at_the_first(spelled, 'x', 'X', 0);
    text::a_text_is_split_at_the_first(before, 'x', 'X', 0);
    assert(spelled[at] == cross);
    assert forall|k: int| 0 <= k < at implies #[trigger] spelled[k] != 'x' && spelled[k] != 'X' by {
        assert(spelled[k] == before[k]);
    }
    assert(text::first_of(spelled, 'x', 'X', 0) == Some(at));
    assert(text::first_of(before, 'x', 'X', 0) is None);
    assert(spelled.take(at) =~= before);
    assert(spelled.skip(at + 1) =~= after);
}

/// A run goes ahead exactly where nothing stands against it: a level that can be
/// stored, an extent and a corner that are whole texels of it, ground that rises,
/// and a grid no finer than the terrain.
pub proof fn a_run_goes_ahead_where_nothing_stands_against_it(request: Request)
    ensures
        request.refusal() is None <==> {
            &&& request.max_level < 24
            &&& request.extent@[0] as int % (pow2(request.max_level as nat) as int) == 0
            &&& request.extent@[1] as int % (pow2(request.max_level as nat) as int) == 0
            &&& request.on_lattice@[0]
            &&& request.on_lattice@[1]
            &&& request.rises
            &&& request.coarse
        },
{
}

/// What a run is refused for is the first thing that stands against it, and is
/// said with the measure at fault.
pub proof fn a_refusal_names_the_first_fault(request: Request)
    ensures
        ({
            let level = text::decimal_of(request.max_level as nat);
            let step = text::decimal_of(pow2(request.max_level as nat));
            let stored = request.max_level < 24;
            let divides = request.extent@[0] as int % (pow2(request.max_level as nat) as int) == 0
                && request.extent@[1] as int % (pow2(request.max_level as nat) as int) == 0;
            &&& !stored ==> request.refusal() == Some(
                "a max level of "@ + level + " is not a level anything could store"@,
            )
            &&& stored && !divides ==> request.refusal() == Some(
                "an extent of "@ + text::decimal_of(request.extent@[0] as nat) + " x "@ + text::decimal_of(
                    request.extent@[1] as nat,
                ) + " texels does not divide into level "@ + level + " texels of "@ + step + " m"@,
            )
            &&& stored && divides && !request.on_lattice@[0] ==> request.refusal() == Some(
                "an origin "@ + "easting"@ + " of "@ + request.origin@[0]@ + " m is not a whole number of level-"@
                    + level + " texels of "@ + step + " m"@,
            )
            &&& stored && divides && request.on_lattice@[0] && !request.on_lattice@[1] ==> request.refusal() == Some(
                "an origin "@ + "northing"@ + " of "@ + request.origin@[1]@ + " m is not a whole number of level-"@
                    + level + " texels of "@ + step + " m"@,
            )
            &&& stored && divides && request.on_lattice@[0] && request.on_lattice@[1] && !request.rises
                ==> request.refusal() == Some(
                "a peak at "@ + request.peak@ + " m is not above a valley floor at "@ + request.valley@ + " m"@,
            )
            &&& stored && divides && request.on_lattice@[0] && request.on_lattice@[1] && request.rises
                && !request.coarse ==> request.refusal() == Some(
                "an erosion grid of "@ + request.cell@ + " m is finer than the terrain it shapes"@,
            )
        }),
{
}

/// Levels run from the finest up, as many as there are.
pub proof fn levels_run_from_the_finest_up(levels: Levels)
    ensures
        levels.end() == levels.level_count + levels.base_level,
{
}

} // verus!
