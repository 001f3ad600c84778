//! Core identifiers: vector ids, node ids, distance metrics.

use crate::text::{decimal, parse_u64, parse_u64_spec, push_digits};
use std::collections::hash_map::DefaultHasher;
use vstd::prelude::*;
use vstd::std_specs::hash::DefaultHasherAdditionalSpecFns;
use vstd::string::StringSliceAdditionalSpecFns;

verus! {

/// The writes that hashing the string with UTF-8 bytes `bytes` makes: the
/// bytes, then the byte `0xff` (as `str::hash` does).
pub open spec fn str_hash_writes(bytes: Seq<u8>) -> Seq<Seq<u8>> {
    seq![bytes, seq![0xffu8]]
}

/// Calls `Hasher::write_u8` on a `DefaultHasher`, which writes the one byte
/// as `write(&[b])` would; the contract records that write.
#[verifier::external_body]
fn hasher_write_u8(h: &mut DefaultHasher, b: u8)
    ensures
        final(h)@ == old(h)@.push(seq![b]),
{
    std::hash::Hasher::write_u8(h, b)
}

/// The hash of `s` under a fresh `DefaultHasher`: its bytes, then `0xff`,
/// as `str::hash` writes them, and `finish`.
fn default_hash(s: &str) -> (r: u64)
    ensures
        r == DefaultHasher::spec_finish(str_hash_writes(s.spec_bytes())),
{
    let mut hasher = DefaultHasher::new();
    std::hash::Hasher::write(&mut hasher, s.as_bytes());
    hasher_write_u8(&mut hasher, 0xff);
    assert(hasher@ =~= str_hash_writes(s.spec_bytes()));
    std::hash::Hasher::finish(&hasher)
}

/// Unique identifier for a vector in the index.
#[derive(Debug, Clone, Copy, PartialEq, Eq, Structural, Hash, PartialOrd, Ord)]
pub struct VectorId(pub u64);

impl VectorId {
    /// Create a new VectorId from a u64 value.
    pub fn new(id: u64) -> (r: Self)
        ensures
            r.0 == id,
    {
        VectorId(id)
    }

    /// Get the underlying u64 value.
    pub fn get(self) -> (r: u64)
        ensures
            r == self.0,
    {
        self.0
    }

    /// The id of a client-provided string id: the string's hash under a
    /// fresh `DefaultHasher`, so the same string always gives the same id.
    pub fn from_client_id(client_id: &str) -> (r: Self)
        ensures
            r.0 == DefaultHasher::spec_finish(str_hash_writes(client_id.spec_bytes())),
    {
        VectorId(default_hash(client_id))
    }

    /// The display text: `v` followed by the decimal value.
    pub fn to_string(&self) -> (r: String)
        ensures
            r@ == vector_id_text(*self),
    {
        let mut s = String::new();
        proof {
            reveal_strlit("v");
        }
        s.append("v");
        push_digits(&mut s, self.0, 10);
        assert(s@ =~= vector_id_text(*self));
        s
    }
}

/// The display text of a vector id.
pub open spec fn vector_id_text(id: VectorId) -> Seq<char> {
    seq!['v'] + decimal(id.0 as nat)
}

impl From<u64> for VectorId {
    fn from(id: u64) -> (r: Self)
        ensures
            r.0 == id,
    {
        VectorId(id)
    }
}

impl vstd::std_specs::convert::FromSpecImpl<u64> for VectorId {
    open spec fn obeys_from_spec() -> bool {
        true
    }

    open spec fn from_spec(v: u64) -> VectorId {
        VectorId(v)
    }
}

impl From<VectorId> for u64 {
    fn from(id: VectorId) -> (r: Self)
        ensures
            r == id.0,
    {
        id.0
    }
}

impl vstd::std_specs::convert::FromSpecImpl<VectorId> for u64 {
    open spec fn obeys_from_spec() -> bool {
        true
    }

    open spec fn from_spec(v: VectorId) -> u64 {
        v.0
    }
}

/// Unique identifier for a node in the cluster.
#[derive(Debug, Clone, Copy, PartialEq, Eq, Structural, Hash, PartialOrd, Ord)]
pub struct NodeId(pub u64);

impl NodeId {
    /// Create a new NodeId from a u64 value.
    pub fn new(id: u64) -> (r: Self)
        ensures
            r.0 == id,
    {
        NodeId(id)
    }

    /// Get the underlying u64 value.
    pub fn get(self) -> (r: u64)
        ensures
            r == self.0,
    {
        self.0
    }

    /// The display text: `n` followed by the decimal value.
    pub fn to_string(&self) -> (r: String)
        ensures
            r@ == node_id_text(*self),
    {
        let mut s = String::new();
        proof {
            reveal_strlit("n");
        }
        s.append("n");
        push_digits(&mut s, self.0, 10);
        assert(s@ =~= node_id_text(*self));
        s
    }
}

/// The display text of a node id.
pub open spec fn node_id_text(id: NodeId) -> Seq<char> {
    seq!['n'] + decimal(id.0 as nat)
}

/// The node id that a text names: its decimal value, or node 0 when the
/// text is not a `u64` in decimal.
pub open spec fn node_id_of_text(s: Seq<char>) -> NodeId {
    match parse_u64_spec(s) {
        Some(v) => NodeId(v),
        None => NodeId(0),
    }
}

impl From<u64> for NodeId {
    fn from(id: u64) -> (r: Self)
        ensures
            r.0 == id,
    {
        NodeId(id)
    }
}

impl vstd::std_specs::convert::FromSpecImpl<u64> for NodeId {
    open spec fn obeys_from_spec() -> bool {
        true
    }

    open spec fn from_spec(v: u64) -> NodeId {
        NodeId(v)
    }
}

impl From<NodeId> for u64 {
    fn from(id: NodeId) -> (r: Self)
        ensures
            r == id.0,
    {
        id.0
    }
}

impl vstd::std_specs::convert::FromSpecImpl<NodeId> for u64 {
    open spec fn obeys_from_spec() -> bool {
        true
    }

    open spec fn from_spec(v: NodeId) -> u64 {
        v.0
    }
}

impl From<String> for NodeId {
    fn from(s: String) -> (r: Self)
        ensures
            r == node_id_of_text(s@),
    {
        match parse_u64(s.as_str()) {
            Some(v) => NodeId(v),
            None => NodeId(0),
        }
    }
}

impl vstd::std_specs::convert::FromSpecImpl<String> for NodeId {
    open spec fn obeys_from_spec() -> bool {
        true
    }

    open spec fn from_spec(v: String) -> NodeId {
        node_id_of_text(v@)
    }
}

impl<'a> From<&'a str> for NodeId {
    fn from(s: &'a str) -> (r: Self)
        ensures
            r == node_id_of_text(s@),
    {
        match parse_u64(s) {
            Some(v) => NodeId(v),
            None => NodeId(0),
        }
    }
}

impl<'a> vstd::std_specs::convert::FromSpecImpl<&'a str> for NodeId {
    open spec fn obeys_from_spec() -> bool {
        true
    }

    open spec fn from_spec(v: &'a str) -> NodeId {
        node_id_of_text(v@)
    }
}

/// Distance metric for vector similarity calculations.
#[derive(Debug, Clone, Copy, PartialEq, Eq, Structural)]
pub enum DistanceMetric {
    /// Euclidean (L2) distance - lower is more similar
    Euclidean,
    /// Cosine distance - 1 - cosine_similarity, lower is more similar
    Cosine,
    /// Inner product (dot product) - for normalized vectors
    InnerProduct,
}

impl Default for DistanceMetric {
    fn default() -> (r: Self)
        ensures
            r == DistanceMetric::Euclidean,
    {
        DistanceMetric::Euclidean
    }
}

/// The name of a distance metric.
pub open spec fn metric_name(m: DistanceMetric) -> Seq<char> {
    match m {
        DistanceMetric::Euclidean => "euclidean"@,
        DistanceMetric::Cosine => "cosine"@,
        DistanceMetric::InnerProduct => "inner_product"@,
    }
}

impl DistanceMetric {
    /// The display text: the metric's name in snake case.
    pub fn to_string(&self) -> (r: String)
        ensures
            r@ == metric_name(*self),
    {
        match self {
            DistanceMetric::Euclidean => String::from_str("euclidean"),
            DistanceMetric::Cosine => String::from_str("cosine"),
            DistanceMetric::InnerProduct => String::from_str("inner_product"),
        }
    }
}

} // verus!
