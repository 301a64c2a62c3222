use vstd::prelude::*;
use crate::sides::Sides;

verus! {

/// One border as ordered runs of (color name, proportion).
pub type EdgeInfo = Vec<(String, u32)>;

/// The border signatures of one source image, as runs of colors.
pub struct FlagEdges {
    pub id: String,
    pub top: EdgeInfo,
    pub right: EdgeInfo,
    pub bottom: EdgeInfo,
    pub left: EdgeInfo,
}

/// One source image with each border reduced to its signature id.
pub struct FlagInfo {
    pub id: String,
    pub top: String,
    pub right: String,
    pub bottom: String,
    pub left: String,
}

/// All flags that share one quadruple of border signatures.
#[derive(Clone, Debug)]
pub struct MultiFlag {
    pub id: String,
    pub top: String,
    pub right: String,
    pub bottom: String,
    pub left: String,
}

/// The ten decimal digits.
pub open spec fn digit(d: nat) -> char {
    seq!['0', '1', '2', '3', '4', '5', '6', '7', '8', '9'][d as int]
}

/// The decimal notation of `n`, without sign or leading zeros.
pub open spec fn decimal(n: nat) -> Seq<char>
    decreases n,
{
    if n < 10 {
        seq![digit(n)]
    } else {
        decimal(n / 10) + seq![digit(n % 10)]
    }
}

/// The signature id of a border: each run's color followed by its proportion.
pub open spec fn edge_id(runs: Seq<(String, u32)>) -> Seq<char>
    decreases runs.len(),
{
    if runs.len() == 0 {
        Seq::empty()
    } else {
        edge_id(runs.drop_last()) + runs.last().0@ + decimal(runs.last().1 as nat)
    }
}

/// The canonical id of a quadruple of signatures: the four joined by commas
/// in the order top, right, bottom, left.
#[verifier::opaque]
pub open spec fn joined_id(
    top: Seq<char>,
    right: Seq<char>,
    bottom: Seq<char>,
    left: Seq<char>,
) -> Seq<char> {
    top + seq![','] + right + seq![','] + bottom + seq![','] + left
}

impl FlagInfo {
    pub open spec fn canonical_id(&self) -> Seq<char> {
        joined_id(self.top@, self.right@, self.bottom@, self.left@)
    }
}

impl MultiFlag {
    /// The signature on side `s`.
    pub open spec fn sig(&self, s: Sides) -> Seq<char> {
        match s {
            Sides::TOP => self.top@,
            Sides::RIGHT => self.right@,
            Sides::BOTTOM => self.bottom@,
            Sides::LEFT => self.left@,
        }
    }

    pub fn side(&self, side: Sides) -> (r: &str)
        ensures
            r@ == self.sig(side),
    {
        match side {
            Sides::TOP => self.top.as_str(),
            Sides::RIGHT => self.right.as_str(),
            Sides::BOTTOM => self.bottom.as_str(),
            Sides::LEFT => self.left.as_str(),
        }
    }

    /// The signature on side `side`, as the owned string.
    pub fn side_string(&self, side: Sides) -> (r: &String)
        ensures
            r@ == self.sig(side),
    {
        match side {
            Sides::TOP => &self.top,
            Sides::RIGHT => &self.right,
            Sides::BOTTOM => &self.bottom,
            Sides::LEFT => &self.left,
        }
    }
}

/// Relies on `u32`'s `ToString`, which writes the number in decimal digits
/// with no sign and no leading zeros.
#[verifier::external_body]
fn u32_to_decimal(n: u32) -> (r: String)
    ensures
        r@ == decimal(n as nat),
{
    n.to_string()
}

/// The signature id of one border.
pub fn edge_to_id(edge: &EdgeInfo) -> (r: String)
    ensures
        r@ == edge_id(edge@),
{
    let mut output = String::new();
    let mut i: usize = 0;
    while i < edge.len()
        invariant
            i <= edge@.len(),
            output@ == edge_id(edge@.take(i as int)),
        decreases edge@.len() - i,
    {
        let digits = u32_to_decimal(edge[i].1);
        output.append(edge[i].0.as_str());
        output.append(digits.as_str());
        proof {
            let t = edge@.take(i as int + 1);
            assert(t.drop_last() == edge@.take(i as int));
        }
        i = i + 1;
    }
    assert(edge@.take(edge@.len() as int) == edge@);
    output
}

/// The canonical id of a flag's quadruple of signatures.
pub fn edges_into_id(flag: &FlagInfo) -> (r: String)
    ensures
        r@ == flag.canonical_id(),
{
    let comma = String::from_str(",");
    proof {
        reveal_strlit(",");
    }
    let mut output = String::new();
    output.append(flag.top.as_str());
    output.append(comma.as_str());
    output.append(flag.right.as_str());
    output.append(comma.as_str());
    output.append(flag.bottom.as_str());
    output.append(comma.as_str());
    output.append(flag.left.as_str());
    proof {
        reveal(joined_id);
    }
    assert(output@ == flag.canonical_id());
    output
}

/// Reduces each border of a flag to its signature id.
pub fn flag_info_of(edges: &FlagEdges) -> (r: FlagInfo)
    ensures
        r.id@ == edges.id@,
        r.top@ == edge_id(edges.top@),
        r.right@ == edge_id(edges.right@),
        r.bottom@ == edge_id(edges.bottom@),
        r.left@ == edge_id(edges.left@),
{
    FlagInfo {
        id: edges.id.clone(),
        top: edge_to_id(&edges.top),
        right: edge_to_id(&edges.right),
        bottom: edge_to_id(&edges.bottom),
        left: edge_to_id(&edges.left),
    }
}

} // verus!
