//! The stars and links of a sky.
use vstd::prelude::*;

use crate::star::{Link, Star};

verus! {

/// The stars of a sky and the links between them. Stars are named by their
/// index in `stars`; links are only ever appended.
pub struct Sky {
    pub stars: Vec<Star>,
    pub links: Vec<Link>,
}

impl Sky {
    pub fn new(stars: Vec<Star>, links: Vec<Link>) -> (r: Sky)
        ensures
            r.stars@ == stars@,
            r.links@ == links@,
    {
        Sky { stars, links }
    }
}

} // verus!
