//! Location coordinates: the four-field label (wall, shelf, volume, page
//! index) packaged alongside each page's numeric address, its canonical
//! decimal packing, and the sources that choose a label for each page.

use vstd::prelude::*;
use rand::Rng;

verus! {

/// A coordinate label in the library.
#[derive(Clone, Copy, Debug, PartialEq, Eq, Structural)]
pub struct LocationCoordinate {
    pub wall: u32,
    pub shelf: u32,
    pub volume: u32,
    pub page_index: u32,
}

impl LocationCoordinate {
    /// A valid coordinate: wall below 4, shelf below 5, volume below 32,
    /// page index below 410.
    pub open spec fn wf(self) -> bool {
        self.wall < 4 && self.shelf < 5 && self.volume < 32 && self.page_index < 410
    }

    /// Each field fits its fixed width in the decimal packing: 3 digits for
    /// the page index, 2 for the volume, 1 each for shelf and wall.
    pub open spec fn packable(self) -> bool {
        self.wall <= 9 && self.shelf <= 9 && self.volume <= 99 && self.page_index <= 999
    }

    /// The packed decimal integer: page index, volume, shelf, wall, read as
    /// one fixed-width decimal numeral.
    pub open spec fn loc_int_spec(self) -> int {
        self.page_index * 10000 + self.volume * 100 + self.shelf * 10 + self.wall
    }

    /// Builds a coordinate, or `None` when a field is out of its range.
    pub fn new(wall: u32, shelf: u32, volume: u32, page_index: u32) -> (c: Option<
        LocationCoordinate,
    >)
        ensures
            c is Some <==> (wall < 4 && shelf < 5 && volume < 32 && page_index < 410),
            c is Some ==> c->0 == (LocationCoordinate { wall, shelf, volume, page_index })
                && c->0.wf(),
    {
        if wall < 4 && shelf < 5 && volume < 32 && page_index < 410 {
            Some(LocationCoordinate { wall, shelf, volume, page_index })
        } else {
            None
        }
    }

    /// The packed decimal integer as a machine word.
    pub fn loc_int(&self) -> (r: u32)
        requires
            self.packable(),
        ensures
            r as int == self.loc_int_spec(),
    {
        self.page_index * 10000 + self.volume * 100 + self.shelf * 10 + self.wall
    }

    /// A uniformly random valid coordinate.
    pub fn random() -> (c: LocationCoordinate)
        ensures
            c.wf(),
    {
        LocationCoordinate {
            wall: rand_below(4),
            shelf: rand_below(5),
            volume: rand_below(32),
            page_index: rand_below(410),
        }
    }
}

/// Relies on `rand::Rng::gen_range` on `rand::thread_rng` with the range
/// `0..n`: a value drawn uniformly below `n`. Nothing further can be
/// promised of a random draw.
#[verifier::external_body]
fn rand_below(n: u32) -> (r: u32)
    requires
        n >= 1,
    ensures
        r < n,
{
    rand::thread_rng().gen_range(0..n)
}

/// Chooses the coordinate label for each page. Coordinate choice is an
/// injected dependency so that addresses can be made reproducible.
pub trait CoordinateSource {
    /// Whether the source is in a state fit to hand out labels.
    spec fn inv(&self) -> bool;

    /// The next coordinate label; always a valid coordinate.
    fn next_coordinate(&mut self) -> (c: LocationCoordinate)
        requires
            old(self).inv(),
        ensures
            final(self).inv(),
            c.wf(),
    ;
}

/// Labels every page with a fresh uniformly random coordinate.
pub struct RandomCoordinateSource {}

impl CoordinateSource for RandomCoordinateSource {
    open spec fn inv(&self) -> bool {
        true
    }

    fn next_coordinate(&mut self) -> (c: LocationCoordinate) {
        LocationCoordinate::random()
    }
}

/// Labels every page with one fixed coordinate, for reproducible addresses.
pub struct FixedCoordinateSource {
    pub coordinate: LocationCoordinate,
}

impl CoordinateSource for FixedCoordinateSource {
    open spec fn inv(&self) -> bool {
        self.coordinate.wf()
    }

    fn next_coordinate(&mut self) -> (c: LocationCoordinate) {
        self.coordinate
    }
}

} // verus!
