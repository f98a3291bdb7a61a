use vstd::prelude::*;

verus! {

/// Binding number of the per-vertex data.
pub const VERTEX_BINDING: u32 = 0;

/// Binding number of the per-instance data.
pub const INSTANCE_BINDING: u32 = 1;

/// A vertex attribute: a vector of 32-bit floats, or a matrix of them
/// given as width by height, which takes one shader location per column.
#[derive(Copy, Clone, PartialEq, Eq, Structural, Debug)]
pub enum Attribute {
    F32x2,
    F32x3,
    F32x4x3,
    F32x3x2,
}

/// Layout of the data at one shader location.
#[derive(Copy, Clone, PartialEq, Eq, Structural, Debug)]
pub enum LocationFormat {
    /// Two 32-bit floats.
    R32G32Sfloat,
    /// Three 32-bit floats.
    R32G32B32Sfloat,
}

/// Where the data of one shader location lies in a vertex.
#[derive(Copy, Clone, PartialEq, Eq, Structural, Debug)]
pub struct AttribDesc {
    pub location: u32,
    pub binding: u32,
    pub format: LocationFormat,
    pub offset: u32,
}

impl Attribute {
    /// Number of shader locations that the attribute takes.
    pub open spec fn locations(self) -> nat {
        match self {
            Attribute::F32x2 | Attribute::F32x3 => 1,
            Attribute::F32x4x3 => 4,
            Attribute::F32x3x2 => 3,
        }
    }

    /// Number of floats at each location of the attribute.
    pub open spec fn components(self) -> nat {
        match self {
            Attribute::F32x2 | Attribute::F32x3x2 => 2,
            Attribute::F32x3 | Attribute::F32x4x3 => 3,
        }
    }

    /// Number of bytes at each location of the attribute.
    pub open spec fn location_bytes(self) -> nat {
        4 * self.components()
    }

    /// Number of bytes of the attribute.
    pub open spec fn bytes(self) -> nat {
        self.locations() * self.location_bytes()
    }

    /// Layout of each location of the attribute.
    pub open spec fn format(self) -> LocationFormat {
        if self.components() == 2 {
            LocationFormat::R32G32Sfloat
        } else {
            LocationFormat::R32G32B32Sfloat
        }
    }

    /// Number of bytes of the attribute.
    pub fn get_total_size(self) -> (r: u32)
        ensures
            r == self.bytes(),
    {
        assert(self.locations() * self.location_bytes() <= 48) by {
            assert(self.locations() <= 4 && self.location_bytes() <= 12);
            assert(self.locations() * self.location_bytes() <= 4 * 12) by (nonlinear_arith)
                requires
                    self.locations() <= 4,
                    self.location_bytes() <= 12,
            ;
        }
        self.get_total_locations() * self.get_size_of_single_location()
    }

    /// Number of shader locations that the attribute takes.
    pub fn get_total_locations(self) -> (r: u32)
        ensures
            r == self.locations(),
    {
        match self {
            Attribute::F32x2 | Attribute::F32x3 => 1,
            Attribute::F32x4x3 => 4,
            Attribute::F32x3x2 => 3,
        }
    }

    /// Number of bytes at each location of the attribute.
    pub fn get_size_of_single_location(self) -> (r: u32)
        ensures
            r == self.location_bytes(),
    {
        4 * self.get_rgb_components()
    }

    /// Number of floats at each location of the attribute.
    pub fn get_rgb_components(self) -> (r: u32)
        ensures
            r == self.components(),
    {
        match self {
            Attribute::F32x2 | Attribute::F32x3x2 => 2,
            Attribute::F32x3 | Attribute::F32x4x3 => 3,
        }
    }

    /// Layout of each location of the attribute.
    pub fn get_format_of_single_location(self) -> (r: LocationFormat)
        ensures
            r == self.format(),
    {
        if self.get_rgb_components() == 2 {
            LocationFormat::R32G32Sfloat
        } else {
            LocationFormat::R32G32B32Sfloat
        }
    }
}

/// Number of bytes of the first `n` attributes together.
pub open spec fn stride_of(attributes: Seq<Attribute>, n: nat) -> nat
    decreases n,
{
    if n == 0 {
        0
    } else {
        stride_of(attributes, (n - 1) as nat) + attributes[n - 1].bytes()
    }
}

/// Number of shader locations of the first `n` attributes together.
pub open spec fn locations_of(attributes: Seq<Attribute>, n: nat) -> nat
    decreases n,
{
    if n == 0 {
        0
    } else {
        locations_of(attributes, (n - 1) as nat) + attributes[n - 1].locations()
    }
}

/// Number of bytes before the first `n` attributes and `k` more locations
/// of the next one.
pub open spec fn offset_of(attributes: Seq<Attribute>, n: nat, k: nat) -> nat {
    stride_of(attributes, n) + k * attributes[n as int].location_bytes()
}

/// The descriptions of the locations of the first `n` attributes, in
/// order: locations count up from `location_offset`, offsets from 0.
pub open spec fn descs_of(
    attributes: Seq<Attribute>,
    binding: u32,
    location_offset: u32,
    n: nat,
) -> Seq<AttribDesc>
    decreases n,
{
    if n == 0 {
        Seq::<AttribDesc>::empty()
    } else {
        let m = (n - 1) as nat;
        descs_of(attributes, binding, location_offset, m) + Seq::new(
            attributes[m as int].locations(),
            |k: int|
                AttribDesc {
                    location: (location_offset + locations_of(attributes, m) + k) as u32,
                    binding,
                    format: attributes[m as int].format(),
                    offset: offset_of(attributes, m, k as nat) as u32,
                },
        )
    }
}

/// A vertex has at most 48 bytes and 4 locations for each attribute.
pub proof fn lemma_totals_bounded(attributes: Seq<Attribute>, n: nat)
    ensures
        stride_of(attributes, n) <= 48 * n,
        locations_of(attributes, n) <= 4 * n,
    decreases n,
{
    if n > 0 {
        lemma_totals_bounded(attributes, (n - 1) as nat);
        let a = attributes[n - 1];
        assert(a.bytes() <= 48) by {
            assert(a.locations() * a.location_bytes() <= 4 * 12) by (nonlinear_arith)
                requires
                    a.locations() <= 4,
                    a.location_bytes() <= 12,
            ;
        }
    }
}

/// Number of bytes of a vertex with these attributes.
pub fn calc_total_stride(attributes: &[Attribute]) -> (r: u32)
    requires
        48 * attributes@.len() <= u32::MAX,
    ensures
        r == stride_of(attributes@, attributes@.len()),
{
    let mut stride_size: u32 = 0;
    let mut i: usize = 0;
    while i < attributes.len()
        invariant
            i <= attributes@.len(),
            48 * attributes@.len() <= u32::MAX,
            stride_size == stride_of(attributes@, i as nat),
        decreases attributes@.len() - i,
    {
        proof {
            lemma_totals_bounded(attributes@, (i + 1) as nat);
        }
        stride_size += attributes[i].get_total_size();
        i += 1;
    }
    stride_size
}

/// Number of shader locations of a vertex with these attributes.
pub fn calc_total_locations(attributes: &[Attribute]) -> (r: u32)
    requires
        4 * attributes@.len() <= u32::MAX,
    ensures
        r == locations_of(attributes@, attributes@.len()),
{
    let mut locations: u32 = 0;
    let mut i: usize = 0;
    while i < attributes.len()
        invariant
            i <= attributes@.len(),
            4 * attributes@.len() <= u32::MAX,
            locations == locations_of(attributes@, i as nat),
        decreases attributes@.len() - i,
    {
        proof {
            lemma_totals_bounded(attributes@, (i + 1) as nat);
        }
        locations += attributes[i].get_total_locations();
        i += 1;
    }
    locations
}

/// Appends one description for each location of each attribute and
/// returns the first location after them.
pub fn push_attrib_descs(
    attrib_descs: &mut Vec<AttribDesc>,
    binding: u32,
    location_offset: u32,
    attributes: &[Attribute],
) -> (r: u32)
    requires
        location_offset + 4 * attributes@.len() <= u32::MAX,
        48 * attributes@.len() <= u32::MAX,
    ensures
        final(attrib_descs)@ == old(attrib_descs)@ + descs_of(
            attributes@,
            binding,
            location_offset,
            attributes@.len(),
        ),
        r == location_offset + locations_of(attributes@, attributes@.len()),
{
    let mut current_location: u32 = location_offset;
    let mut current_offset: u32 = 0;
    let mut i: usize = 0;
    while i < attributes.len()
        invariant
            i <= attributes@.len(),
            location_offset + 4 * attributes@.len() <= u32::MAX,
            48 * attributes@.len() <= u32::MAX,
            current_location == location_offset + locations_of(attributes@, i as nat),
            current_offset == stride_of(attributes@, i as nat),
            attrib_descs@ == old(attrib_descs)@ + descs_of(
                attributes@,
                binding,
                location_offset,
                i as nat,
            ),
        decreases attributes@.len() - i,
    {
        let attrib: Attribute = attributes[i];
        proof {
            lemma_totals_bounded(attributes@, (i + 1) as nat);
            lemma_totals_bounded(attributes@, i as nat);
        }
        let next_location: u32 = current_location + attrib.get_total_locations();
        let ghost before = attrib_descs@;
        let ghost first = current_location;
        let ghost start = current_offset;
        while current_location < next_location
            invariant
                i < attributes@.len(),
                attrib == attributes@[i as int],
                first <= current_location <= next_location,
                next_location == first + attrib.locations(),
                first == location_offset + locations_of(attributes@, i as nat),
                start == stride_of(attributes@, i as nat),
                current_offset == start + (current_location - first) * attrib.location_bytes(),
                start + attrib.bytes() <= u32::MAX,
                attrib_descs@ == before + Seq::new(
                    (current_location - first) as nat,
                    |k: int|
                        AttribDesc {
                            location: (location_offset + locations_of(attributes@, i as nat)
                                + k) as u32,
                            binding,
                            format: attrib.format(),
                            offset: offset_of(attributes@, i as nat, k as nat) as u32,
                        },
                ),
            decreases next_location - current_location,
        {
            let ghost done = (current_location - first) as nat;
            proof {
                assert((done + 1) * attrib.location_bytes() <= attrib.locations()
                    * attrib.location_bytes()) by (nonlinear_arith)
                    requires
                        done + 1 <= attrib.locations(),
                ;
                assert((done + 1) * attrib.location_bytes() == done * attrib.location_bytes()
                    + attrib.location_bytes()) by (nonlinear_arith);
            }
            attrib_descs.push(
                AttribDesc {
                    location: current_location,
                    binding,
                    format: attrib.get_format_of_single_location(),
                    offset: current_offset,
                },
            );
            current_offset += attrib.get_size_of_single_location();
            current_location += 1;
            proof {
                assert(attrib_descs@ =~= before + Seq::new(
                    (current_location - first) as nat,
                    |k: int|
                        AttribDesc {
                            location: (location_offset + locations_of(attributes@, i as nat)
                                + k) as u32,
                            binding,
                            format: attrib.format(),
                            offset: offset_of(attributes@, i as nat, k as nat) as u32,
                        },
                ));
            }
        }
        proof {
            assert(attrib_descs@ =~= old(attrib_descs)@ + descs_of(
                attributes@,
                binding,
                location_offset,
                (i + 1) as nat,
            ));
        }
        i += 1;
    }
    current_location
}

/// Number of bytes between one vertex and the next in the vertex binding.
pub fn get_binding_stride(vertex_attributes: &[Attribute]) -> (r: u32)
    requires
        48 * vertex_attributes@.len() <= u32::MAX,
    ensures
        r == stride_of(vertex_attributes@, vertex_attributes@.len()),
{
    calc_total_stride(vertex_attributes)
}

/// The descriptions of the locations of the vertex attributes, in the
/// vertex binding and from location 0 on.
pub fn get_attrib_descs(vertex_attributes: &[Attribute]) -> (r: Vec<AttribDesc>)
    requires
        48 * vertex_attributes@.len() <= u32::MAX,
    ensures
        r@ == descs_of(vertex_attributes@, VERTEX_BINDING, 0, vertex_attributes@.len()),
{
    let mut attrib_descs: Vec<AttribDesc> = Vec::new();
    push_attrib_descs(&mut attrib_descs, VERTEX_BINDING, 0, vertex_attributes);
    proof {
        assert(attrib_descs@ =~= descs_of(
            vertex_attributes@,
            VERTEX_BINDING,
            0,
            vertex_attributes@.len(),
        ));
    }
    attrib_descs
}

} // verus!
