use vstd::prelude::*;

verus! {

/// What a queue family of a device can do.
#[derive(Copy, Clone, PartialEq, Eq, Structural, Debug)]
pub struct QueueFamily {
    /// The family takes drawing commands.
    pub graphics: bool,
    /// The family takes copy commands.
    pub transfer: bool,
    /// The family can present to the surface.
    pub present: bool,
}

/// The families chosen for drawing, presenting and copying, each by its
/// index, as far as one was found.
#[derive(Copy, Clone, PartialEq, Eq, Structural, Debug)]
pub struct FamilyChoice {
    pub graphics: Option<u32>,
    pub present: Option<u32>,
    pub transfer: Option<u32>,
}

/// The choice after family `index` was looked at. The first family that
/// draws is kept for drawing. A family that presents replaces the choice
/// for presenting while that is still the drawing family, and a family
/// that copies replaces the choice for copying while that is still the
/// drawing or the presenting family: where the device allows it, the
/// three are different families.
pub open spec fn choice_step(choice: FamilyChoice, family: QueueFamily, index: u32) -> FamilyChoice {
    let graphics = if family.graphics && choice.graphics is None {
        Some(index)
    } else {
        choice.graphics
    };
    let present = if family.present && (choice.present is None || (graphics is Some && graphics
        == choice.present)) {
        Some(index)
    } else {
        choice.present
    };
    let transfer = if family.transfer && (choice.transfer is None || (graphics is Some && graphics
        == choice.transfer) || (present is Some && present == choice.transfer)) {
        Some(index)
    } else {
        choice.transfer
    };
    FamilyChoice { graphics, present, transfer }
}

/// The choice after the first `n` families were looked at in order.
pub open spec fn choice_of(families: Seq<QueueFamily>, n: nat) -> FamilyChoice
    decreases n,
{
    if n == 0 {
        FamilyChoice { graphics: None, present: None, transfer: None }
    } else {
        choice_step(choice_of(families, (n - 1) as nat), families[n - 1], (n - 1) as u32)
    }
}

/// Chooses the queue families for drawing, presenting and copying among
/// the families of a device, given in the order of their indices.
pub fn find_queue_family_indices(families: &[QueueFamily]) -> (r: FamilyChoice)
    requires
        families@.len() <= u32::MAX,
    ensures
        r == choice_of(families@, families@.len()),
{
    let mut graphics: Option<u32> = None;
    let mut present: Option<u32> = None;
    let mut transfer: Option<u32> = None;
    let mut i: usize = 0;
    while i < families.len()
        invariant
            i <= families@.len(),
            families@.len() <= u32::MAX,
            (FamilyChoice { graphics, present, transfer }) == choice_of(families@, i as nat),
        decreases families@.len() - i,
    {
        let family: QueueFamily = families[i];
        let index: u32 = i as u32;
        if family.graphics && graphics.is_none() {
            graphics = Some(index);
        }
        if family.present && (present.is_none() || (graphics.is_some() && graphics.unwrap()
            == present.unwrap())) {
            present = Some(index);
        }
        if family.transfer && (transfer.is_none() || (graphics.is_some() && graphics.unwrap()
            == transfer.unwrap()) || (present.is_some() && present.unwrap() == transfer.unwrap())) {
            transfer = Some(index);
        }
        i += 1;
    }
    FamilyChoice { graphics, present, transfer }
}

/// Whether a device will do: a family was found for drawing, for
/// presenting and for copying, and the device has the extensions and the
/// features that are asked for.
pub fn is_device_suitable(choice: FamilyChoice, extension_support: bool, feature_support: bool) -> (r:
    bool)
    ensures
        r == (choice.graphics is Some && choice.present is Some && choice.transfer is Some
            && extension_support && feature_support),
{
    choice.graphics.is_some() && choice.present.is_some() && choice.transfer.is_some()
        && extension_support && feature_support
}

/// Whether two names are the same, byte for byte.
pub fn same_name(a: &[u8], b: &[u8]) -> (r: bool)
    ensures
        r == (a@ == b@),
{
    if a.len() != b.len() {
        return false;
    }
    let mut i: usize = 0;
    while i < a.len()
        invariant
            i <= a@.len(),
            a@.len() == b@.len(),
            forall|k: int| 0 <= k < i ==> a@[k] == b@[k],
        decreases a@.len() - i,
    {
        if a[i] != b[i] {
            return false;
        }
        i += 1;
    }
    proof {
        assert(a@ =~= b@);
    }
    true
}

/// Whether `name` is one of the names in `available`.
pub open spec fn is_available(available: Seq<Vec<u8>>, name: Seq<u8>) -> bool {
    exists|k: int| 0 <= k < available.len() && (#[trigger] available[k])@ == name
}

/// Finds the first required name that is not among the available ones, by
/// its index in `required`; `None` if every required name is available.
pub fn first_missing(required: &[Vec<u8>], available: &[Vec<u8>]) -> (r: Option<usize>)
    ensures
        match r {
            Some(i) => i < required@.len() && !is_available(available@, required@[i as int]@)
                && forall|k: int| 0 <= k < i ==> is_available(available@, required@[k]@),
            None => forall|k: int|
                0 <= k < required@.len() ==> is_available(available@, required@[k]@),
        },
{
    let mut i: usize = 0;
    while i < required.len()
        invariant
            i <= required@.len(),
            forall|k: int| 0 <= k < i ==> is_available(available@, required@[k]@),
        decreases required@.len() - i,
    {
        let mut found: bool = false;
        let mut j: usize = 0;
        while j < available.len() && !found
            invariant
                i < required@.len(),
                j <= available@.len(),
                found ==> is_available(available@, required@[i as int]@),
                !found ==> forall|k: int| 0 <= k < j ==> available@[k]@ != required@[i as int]@,
            decreases available@.len() - j + (if found { 0int } else { 1int }),
        {
            if same_name(required[i].as_slice(), available[j].as_slice()) {
                found = true;
            } else {
                j += 1;
            }
        }
        if !found {
            return Some(i);
        }
        i += 1;
    }
    None
}

/// Whether the flags `have` include every flag of `want`.
pub open spec fn has_flags(have: u32, want: u32) -> bool {
    have & want == want
}

/// Whether memory type `i` is allowed by the mask and has the required
/// properties.
pub open spec fn suits(mask: u32, required: u32, type_flags: Seq<u32>, i: int) -> bool {
    mask & (1u32 << (i as u32)) != 0 && has_flags(type_flags[i], required)
}

/// Finds the first memory type that the mask allows and that has the
/// required properties; `None` if there is none.
pub fn find_mem_type_index(
    supported_types_mask: u32,
    required_props: u32,
    memory_type_flags: &[u32],
) -> (r: Option<u32>)
    requires
        memory_type_flags@.len() <= 32,
    ensures
        match r {
            Some(i) => i < memory_type_flags@.len() && suits(
                supported_types_mask,
                required_props,
                memory_type_flags@,
                i as int,
            ) && forall|k: int|
                0 <= k < i ==> !suits(supported_types_mask, required_props, memory_type_flags@, k),
            None => forall|k: int|
                0 <= k < memory_type_flags@.len() ==> !suits(
                    supported_types_mask,
                    required_props,
                    memory_type_flags@,
                    k,
                ),
        },
{
    let mut i: usize = 0;
    while i < memory_type_flags.len()
        invariant
            i <= memory_type_flags@.len() <= 32,
            forall|k: int|
                0 <= k < i ==> !suits(supported_types_mask, required_props, memory_type_flags@, k),
        decreases memory_type_flags@.len() - i,
    {
        if supported_types_mask & (1u32 << (i as u32)) != 0 && memory_type_flags[i] & required_props
            == required_props {
            return Some(i as u32);
        }
        i += 1;
    }
    None
}

/// Finds the first candidate format whose features include all of
/// `features`, by its index in `candidate_features`; `None` if there is
/// none.
pub fn find_supported_format(candidate_features: &[u32], features: u32) -> (r: Option<usize>)
    ensures
        match r {
            Some(i) => i < candidate_features@.len() && has_flags(
                candidate_features@[i as int],
                features,
            ) && forall|k: int| 0 <= k < i ==> !has_flags(candidate_features@[k], features),
            None => forall|k: int|
                0 <= k < candidate_features@.len() ==> !has_flags(
                    candidate_features@[k],
                    features,
                ),
        },
{
    let mut i: usize = 0;
    while i < candidate_features.len()
        invariant
            i <= candidate_features@.len(),
            forall|k: int| 0 <= k < i ==> !has_flags(candidate_features@[k], features),
        decreases candidate_features@.len() - i,
    {
        if candidate_features[i] & features == features {
            return Some(i);
        }
        i += 1;
    }
    None
}

/// A format for depth images.
#[derive(Copy, Clone, PartialEq, Eq, Structural, Debug)]
pub enum DepthFormat {
    D32Sfloat,
    D32SfloatS8Uint,
    D24UnormS8Uint,
}

/// Whether a depth format carries stencil bits beside the depth.
pub fn has_stencil_component(format: DepthFormat) -> (r: bool)
    ensures
        r == (format == DepthFormat::D32SfloatS8Uint || format == DepthFormat::D24UnormS8Uint),
{
    match format {
        DepthFormat::D32Sfloat => false,
        DepthFormat::D32SfloatS8Uint => true,
        DepthFormat::D24UnormS8Uint => true,
    }
}

/// The depth format with the given position among the candidates, which
/// are tried in the order 32-bit float, 32-bit float with stencil, 24-bit
/// with stencil.
pub open spec fn depth_candidate(i: int) -> DepthFormat {
    if i == 0 {
        DepthFormat::D32Sfloat
    } else if i == 1 {
        DepthFormat::D32SfloatS8Uint
    } else {
        DepthFormat::D24UnormS8Uint
    }
}

/// Finds the first depth format among the three candidates whose features
/// include all of `features`; `candidate_features` holds the features of
/// the candidates in their order.
pub fn find_depth_format(candidate_features: &[u32], features: u32) -> (r: Option<DepthFormat>)
    requires
        candidate_features@.len() == 3,
    ensures
        match r {
            Some(f) => exists|i: int|
                0 <= i < 3 && f == depth_candidate(i) && has_flags(
                    #[trigger] candidate_features@[i],
                    features,
                ) && forall|k: int| 0 <= k < i ==> !has_flags(candidate_features@[k], features),
            None => forall|k: int| 0 <= k < 3 ==> !has_flags(candidate_features@[k], features),
        },
{
    match find_supported_format(candidate_features, features) {
        Some(i) => {
            if i == 0 {
                Some(DepthFormat::D32Sfloat)
            } else if i == 1 {
                Some(DepthFormat::D32SfloatS8Uint)
            } else {
                Some(DepthFormat::D24UnormS8Uint)
            }
        },
        None => None,
    }
}

} // verus!
