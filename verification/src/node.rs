//! The tagged payload a graph node carries: text, a binary blob, or an
//! integer. Equality is structural (tag, then value) and is what node
//! deduplication goes by.

use vstd::prelude::*;
use vstd::std_specs::cmp::PartialEqSpec;

verus! {

/// The three kinds of data a node can hold.
#[derive(PartialEq, Eq, Debug)]
pub enum DataTypes {
    Text(String),
    Blob(Vec<u8>),
    Integer(isize),
}

/// A graph node: a thin wrapper around one tagged value.
#[derive(PartialEq, Eq, Debug)]
pub struct Node {
    pub data: DataTypes,
}

/// The mathematical value of a node: the payload with exec containers
/// replaced by their abstract counterparts.
pub enum NodeModel {
    Text(Seq<char>),
    Blob(Seq<u8>),
    Integer(int),
}

impl View for Node {
    type V = NodeModel;

    open spec fn view(&self) -> NodeModel {
        match self.data {
            DataTypes::Text(s) => NodeModel::Text(s@),
            DataTypes::Blob(b) => NodeModel::Blob(b@),
            DataTypes::Integer(i) => NodeModel::Integer(i as int),
        }
    }
}

/// Structural equality of two nodes: same tag and same value.
pub fn node_eq(a: &Node, b: &Node) -> (r: bool)
    ensures
        r == (a@ == b@),
{
    match (&a.data, &b.data) {
        (DataTypes::Text(x), DataTypes::Text(y)) => x.eq(y),
        (DataTypes::Blob(x), DataTypes::Blob(y)) => {
            let r = x.eq(y);
            proof {
                if r {
                    assert(x@ =~= y@);
                }
                if x@ == y@ {
                    assert(x.eq_spec(y));
                }
            }
            r
        },
        (DataTypes::Integer(x), DataTypes::Integer(y)) => *x == *y,
        _ => false,
    }
}

impl Node {
    /// The integer payload of a node whose tag is `Integer`. Calling this
    /// on any other tag is a programmer error, so those tags are excluded
    /// by precondition.
    pub fn extract_int(&self) -> (r: isize)
        requires
            self@ is Integer,
        ensures
            self@ == NodeModel::Integer(r as int),
    {
        match &self.data {
            DataTypes::Integer(x) => *x,
            _ => {
                proof {
                    assert(false);
                }
                0
            },
        }
    }
}

impl core::convert::From<String> for Node {
    fn from(v: String) -> (r: Node) {
        Node { data: DataTypes::Text(v) }
    }
}

impl vstd::std_specs::convert::FromSpecImpl<String> for Node {
    open spec fn obeys_from_spec() -> bool {
        true
    }

    open spec fn from_spec(v: String) -> Node {
        Node { data: DataTypes::Text(v) }
    }
}

impl core::convert::From<&str> for Node {
    fn from(v: &str) -> (r: Node)
        ensures
            r@ == NodeModel::Text(v@),
    {
        Node { data: DataTypes::Text(v.to_owned()) }
    }
}

impl vstd::std_specs::convert::FromSpecImpl<&str> for Node {
    open spec fn obeys_from_spec() -> bool {
        // A `&str` is copied into a fresh `String`, so the exact `String`
        // value is not expressible; the `ensures` above speaks of the view.
        false
    }

    open spec fn from_spec(v: &str) -> Node {
        arbitrary()
    }
}

impl core::convert::From<isize> for Node {
    fn from(v: isize) -> (r: Node) {
        Node { data: DataTypes::Integer(v) }
    }
}

impl vstd::std_specs::convert::FromSpecImpl<isize> for Node {
    open spec fn obeys_from_spec() -> bool {
        true
    }

    open spec fn from_spec(v: isize) -> Node {
        Node { data: DataTypes::Integer(v) }
    }
}

impl core::convert::From<Vec<u8>> for Node {
    fn from(v: Vec<u8>) -> (r: Node) {
        Node { data: DataTypes::Blob(v) }
    }
}

impl vstd::std_specs::convert::FromSpecImpl<Vec<u8>> for Node {
    open spec fn obeys_from_spec() -> bool {
        true
    }

    open spec fn from_spec(v: Vec<u8>) -> Node {
        Node { data: DataTypes::Blob(v) }
    }
}

} // verus!
