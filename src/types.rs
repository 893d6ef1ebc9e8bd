use vstd::prelude::*;

verus! {

/// Identifier of a system, unique within a graph.
pub type NodeId = u32;

/// Security at or above this value (in thousandths) is high security.
pub const HIGH_SECURITY_MIN: i32 = 500;

/// A position in space, in whole raw units of the data source.
#[derive(Clone, Copy, Debug, PartialEq, Eq, Structural)]
pub struct Coordinate {
    pub x: i32,
    pub y: i32,
    pub z: i32,
}

/// Derived classification of a system's security.
#[derive(Clone, Copy, Debug, PartialEq, Eq, Structural)]
pub enum SecurityClass {
    High,
    Low,
    Null,
}

/// A system. `security` is in thousandths, so `[-1000, 1000]` stands for
/// `[-1.0, 1.0]`.
#[derive(Clone, Debug)]
pub struct Node {
    pub id: NodeId,
    pub name: String,
    pub coordinate: Coordinate,
    pub security: i32,
}

/// How the endpoints of a stargate relate.
#[derive(Clone, Copy, Debug, PartialEq, Eq, Structural)]
pub enum StargateType {
    Local,
    Constellation,
    Regional,
}

/// What kind of connection an edge is.
#[derive(Clone, Copy, Debug, PartialEq, Eq, Structural)]
pub enum EdgeKind {
    Stargate(StargateType),
    Wormhole,
}

/// A directed traversable link between two systems.
#[derive(Clone, Copy, Debug, PartialEq, Eq, Structural)]
pub struct Edge {
    pub from: NodeId,
    pub to: NodeId,
    pub kind: EdgeKind,
}

pub open spec fn security_class_of(security: int) -> SecurityClass {
    if security >= HIGH_SECURITY_MIN {
        SecurityClass::High
    } else if security > 0 {
        SecurityClass::Low
    } else {
        SecurityClass::Null
    }
}

impl Node {
    /// The security class: high at 0.5 and above, low strictly between 0
    /// and 0.5, null at 0 and below.
    pub fn security_class(&self) -> (r: SecurityClass)
        ensures
            r == security_class_of(self.security as int),
    {
        if self.security >= HIGH_SECURITY_MIN {
            SecurityClass::High
        } else if self.security > 0 {
            SecurityClass::Low
        } else {
            SecurityClass::Null
        }
    }
}

impl Edge {
    pub open spec fn is_stargate(self) -> bool {
        self.kind is Stargate
    }

    pub open spec fn reversed(self) -> Edge {
        Edge { from: self.to, to: self.from, kind: self.kind }
    }

    pub fn is_stargate_exec(&self) -> (r: bool)
        ensures
            r == self.is_stargate(),
    {
        match self.kind {
            EdgeKind::Stargate(_) => true,
            EdgeKind::Wormhole => false,
        }
    }

    /// The same connection travelled the other way.
    pub fn reverse(&self) -> (r: Edge)
        ensures
            r == self.reversed(),
    {
        Edge { from: self.to, to: self.from, kind: self.kind }
    }
}

} // verus!
