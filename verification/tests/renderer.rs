use buddy_memory::input::InputState;
use buddy_memory::renderer::device::{
    find_depth_format, find_mem_type_index, find_queue_family_indices, find_supported_format,
    first_missing, has_stencil_component, is_device_suitable, same_name, DepthFormat,
    FamilyChoice, QueueFamily,
};
use buddy_memory::renderer::pipeline::{
    calc_total_locations, calc_total_stride, get_attrib_descs, get_binding_stride,
    push_attrib_descs, AttribDesc, Attribute, LocationFormat,
};
use buddy_memory::renderer::swapchain::{
    choose_image_count, choose_swapchain_extent, choose_swapchain_format, choose_swapchain_present_mode, Extent,
    SurfaceFormat, COLOR_SPACE_SRGB_NONLINEAR, FORMAT_B8G8R8A8_UNORM, FORMAT_UNDEFINED,
    PRESENT_MODE_FIFO, PRESENT_MODE_IMMEDIATE, PRESENT_MODE_MAILBOX,
};

#[test]
fn attribute_sizes() {
    assert_eq!(Attribute::F32x2.get_total_size(), 8);
    assert_eq!(Attribute::F32x3.get_total_size(), 12);
    assert_eq!(Attribute::F32x4x3.get_total_size(), 48);
    assert_eq!(Attribute::F32x3x2.get_total_size(), 24);
    assert_eq!(Attribute::F32x4x3.get_total_locations(), 4);
    assert_eq!(Attribute::F32x3x2.get_total_locations(), 3);
    assert_eq!(Attribute::F32x3x2.get_size_of_single_location(), 8);
    assert_eq!(Attribute::F32x4x3.get_rgb_components(), 3);
    assert_eq!(Attribute::F32x2.get_format_of_single_location(), LocationFormat::R32G32Sfloat);
    assert_eq!(Attribute::F32x3.get_format_of_single_location(), LocationFormat::R32G32B32Sfloat);
}

#[test]
fn attribute_totals() {
    let attributes = [Attribute::F32x3, Attribute::F32x2, Attribute::F32x3x2];
    assert_eq!(calc_total_stride(&attributes), 12 + 8 + 24);
    assert_eq!(calc_total_locations(&attributes), 1 + 1 + 3);
    assert_eq!(calc_total_stride(&[]), 0);
    assert_eq!(get_binding_stride(&attributes), 44);
}

#[test]
fn attribute_descriptions_count_locations_and_offsets() {
    let attributes = [Attribute::F32x3, Attribute::F32x3x2];
    let mut descs = Vec::new();
    let next = push_attrib_descs(&mut descs, 1, 5, &attributes);
    assert_eq!(next, 9);
    let two = LocationFormat::R32G32Sfloat;
    let three = LocationFormat::R32G32B32Sfloat;
    assert_eq!(
        descs,
        vec![
            AttribDesc { location: 5, binding: 1, format: three, offset: 0 },
            AttribDesc { location: 6, binding: 1, format: two, offset: 12 },
            AttribDesc { location: 7, binding: 1, format: two, offset: 20 },
            AttribDesc { location: 8, binding: 1, format: two, offset: 28 },
        ]
    );
    let vertex = get_attrib_descs(&[Attribute::F32x2, Attribute::F32x2]);
    assert_eq!(
        vertex,
        vec![
            AttribDesc { location: 0, binding: 0, format: two, offset: 0 },
            AttribDesc { location: 1, binding: 0, format: two, offset: 8 },
        ]
    );
}

#[test]
fn swapchain_format_choice() {
    let preferred =
        SurfaceFormat { format: FORMAT_B8G8R8A8_UNORM, color_space: COLOR_SPACE_SRGB_NONLINEAR };
    let open = [SurfaceFormat { format: FORMAT_UNDEFINED, color_space: 7 }];
    assert_eq!(choose_swapchain_format(&open), preferred);
    let other = SurfaceFormat { format: 37, color_space: 0 };
    let wrong_space = SurfaceFormat { format: FORMAT_B8G8R8A8_UNORM, color_space: 3 };
    assert_eq!(choose_swapchain_format(&[other, wrong_space, preferred]), preferred);
    assert_eq!(choose_swapchain_format(&[other, wrong_space]), other);
}

#[test]
fn swapchain_present_mode_choice() {
    assert_eq!(choose_swapchain_present_mode(&[2, 1, 0]), PRESENT_MODE_MAILBOX);
    assert_eq!(choose_swapchain_present_mode(&[0, 2]), PRESENT_MODE_FIFO);
    assert_eq!(choose_swapchain_present_mode(&[3]), PRESENT_MODE_IMMEDIATE);
    assert_eq!(choose_swapchain_present_mode(&[]), PRESENT_MODE_IMMEDIATE);
}

#[test]
fn swapchain_extent_choice() {
    let min = Extent { width: 100, height: 200 };
    let max = Extent { width: 1000, height: 800 };
    let current = Extent { width: 640, height: 480 };
    let preferred = Extent { width: 1280, height: 100 };
    assert_eq!(choose_swapchain_extent(current, min, max, preferred), current);
    let unset = Extent { width: u32::MAX, height: 480 };
    assert_eq!(
        choose_swapchain_extent(unset, min, max, preferred),
        Extent { width: 1000, height: 200 }
    );
}

#[test]
fn memory_type_choice() {
    let flags = [0b001, 0b011, 0b111, 0b110];
    assert_eq!(find_mem_type_index(0b1111, 0b110, &flags), Some(2));
    assert_eq!(find_mem_type_index(0b1011, 0b110, &flags), Some(3));
    assert_eq!(find_mem_type_index(0b0011, 0b110, &flags), None);
    assert_eq!(find_mem_type_index(0b1111, 0, &flags), Some(0));
    assert_eq!(find_mem_type_index(0b1111, 0b1000, &flags), None);
}

#[test]
fn format_choice() {
    assert_eq!(find_supported_format(&[0b01, 0b11, 0b10], 0b10), Some(1));
    assert_eq!(find_supported_format(&[0b01, 0b01], 0b10), None);
    assert_eq!(find_depth_format(&[0, 0x200, 0x200], 0x200), Some(DepthFormat::D32SfloatS8Uint));
    assert_eq!(find_depth_format(&[0x200, 0, 0], 0x200), Some(DepthFormat::D32Sfloat));
    assert_eq!(find_depth_format(&[0, 0, 0x200], 0x200), Some(DepthFormat::D24UnormS8Uint));
    assert_eq!(find_depth_format(&[0, 0, 0], 0x200), None);
    assert!(!has_stencil_component(DepthFormat::D32Sfloat));
    assert!(has_stencil_component(DepthFormat::D32SfloatS8Uint));
    assert!(has_stencil_component(DepthFormat::D24UnormS8Uint));
}

#[test]
fn queue_family_choice_prefers_separate_families() {
    let all = QueueFamily { graphics: true, transfer: true, present: true };
    let copy = QueueFamily { graphics: false, transfer: true, present: false };
    let show = QueueFamily { graphics: false, transfer: false, present: true };
    assert_eq!(
        find_queue_family_indices(&[all]),
        FamilyChoice { graphics: Some(0), present: Some(0), transfer: Some(0) }
    );
    assert_eq!(
        find_queue_family_indices(&[all, copy, show]),
        FamilyChoice { graphics: Some(0), present: Some(2), transfer: Some(1) }
    );
    assert_eq!(
        find_queue_family_indices(&[copy, show]),
        FamilyChoice { graphics: None, present: Some(1), transfer: Some(0) }
    );
    assert_eq!(
        find_queue_family_indices(&[]),
        FamilyChoice { graphics: None, present: None, transfer: None }
    );
}

#[test]
fn input_state_tracks_keys() {
    let mut input = InputState::new();
    assert!(!input.is_key_pressed(3));
    input.set_key_pressed(3, true);
    assert!(input.is_key_pressed(3));
    assert!(!input.is_key_pressed(4));
    assert!(!input.was_key_pressed(3));
    input.previous_keys_pressed = input.keys_pressed;
    input.set_key_pressed(3, false);
    assert!(!input.is_key_pressed(3));
    assert!(input.was_key_pressed(3));
    assert_eq!(input.mouse_pos, [0, 0]);
}

#[test]
fn device_suitability() {
    let complete = FamilyChoice { graphics: Some(0), present: Some(1), transfer: Some(2) };
    let partial = FamilyChoice { graphics: Some(0), present: None, transfer: Some(2) };
    assert!(is_device_suitable(complete, true, true));
    assert!(!is_device_suitable(complete, false, true));
    assert!(!is_device_suitable(complete, true, false));
    assert!(!is_device_suitable(partial, true, true));
}

#[test]
fn required_names_are_looked_up_byte_for_byte() {
    assert!(same_name(b"VK_KHR_swapchain", b"VK_KHR_swapchain"));
    assert!(!same_name(b"VK_KHR_swapchain", b"VK_KHR_swapchai"));
    assert!(!same_name(b"abc", b"abd"));
    assert!(same_name(b"", b""));
    let available = vec![b"one".to_vec(), b"two".to_vec(), b"three".to_vec()];
    assert_eq!(first_missing(&[b"two".to_vec(), b"one".to_vec()], &available), None);
    assert_eq!(first_missing(&[b"two".to_vec(), b"four".to_vec(), b"five".to_vec()], &available), Some(1));
    assert_eq!(first_missing(&[], &available), None);
    assert_eq!(first_missing(&[b"one".to_vec()], &[]), Some(0));
}

#[test]
fn swapchain_image_count_choice() {
    assert_eq!(choose_image_count(2, 8), 3);
    assert_eq!(choose_image_count(2, 3), 3);
    assert_eq!(choose_image_count(3, 3), 3);
    assert_eq!(choose_image_count(2, 0), 0);
}
