use vstd::prelude::*;

use crate::types::StargateType;

verus! {

/// Where a universe is loaded from: the URI of a read-only SQLite database.
pub struct DatabaseBuilder {
    uri: String,
}

impl DatabaseBuilder {
    pub closed spec fn uri_spec(&self) -> Seq<char> {
        self.uri@
    }

    pub fn new(uri: &str) -> (r: Self)
        ensures
            r.uri_spec() == uri@,
    {
        DatabaseBuilder { uri: uri.to_string() }
    }

    pub fn uri(&self) -> (r: &str)
        ensures
            r@ == self.uri_spec(),
    {
        self.uri.as_str()
    }
}

pub open spec fn stargate_type_spec(
    from_region: int,
    from_constellation: int,
    to_constellation: int,
    to_region: int,
) -> StargateType {
    if from_region != to_region {
        StargateType::Regional
    } else if from_constellation != to_constellation {
        StargateType::Constellation
    } else {
        StargateType::Local
    }
}

/// Classifies a stargate by whether its endpoints share a region and a
/// constellation: a change of region wins over a change of constellation.
pub fn stargate_type(
    from_region: i32,
    from_constellation: i32,
    to_constellation: i32,
    to_region: i32,
) -> (r: StargateType)
    ensures
        r == stargate_type_spec(
            from_region as int,
            from_constellation as int,
            to_constellation as int,
            to_region as int,
        ),
{
    if from_region != to_region {
        StargateType::Regional
    } else if from_constellation != to_constellation {
        StargateType::Constellation
    } else {
        StargateType::Local
    }
}

} // verus!
