//! A world: the region files found under its `region/` directory.

use vstd::prelude::*;
use crate::error::RegionError;
use crate::region::{parse_region_name, region_coords, region_result, Region};
use vstd::utf8::encode_utf8;

verus! {

/// A world and the outcome of opening each of its region files.
#[derive(Debug)]
pub struct World {
    pub world_path: String,
    pub regions: Vec<Result<Region, RegionError>>,
}

impl World {
    pub fn new(world_path: String) -> (r: World)
        ensures
            r.world_path@ == world_path@,
            r.regions@.len() == 0,
    {
        World { world_path, regions: Vec::new() }
    }

    /// Whether a directory entry of `region/` names a region file.
    pub fn is_region_file(file_name: &str) -> (r: bool)
        ensures
            r == region_coords(encode_utf8(file_name@)) is Some,
    {
        parse_region_name(file_name).is_some()
    }

    /// Opens one region file and records the outcome.
    pub fn add_region(&mut self, file_name: &str, file: &[u8])
        ensures
            final(self).world_path == old(self).world_path,
            final(self).regions@.len() == old(self).regions@.len() + 1,
            forall|i: int| 0 <= i < old(self).regions@.len() ==> final(self).regions@[i] == old(self).regions@[i],
            region_result(final(self).regions@.last(), file_name@, file@),
    {
        let r = Region::new(file_name, file);
        self.regions.push(r);
    }
}

} // verus!
