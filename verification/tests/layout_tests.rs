use gloom_rs::layout::{byte_size_of_array, offset, size_of, vertex_attributes, AttributeLayout};

#[test]
fn byte_size_of_float_array() {
    let vertices: Vec<f32> = vec![0.0, 1.0, 2.0, 3.0, 4.0, 5.0];
    assert_eq!(byte_size_of_array(&vertices), 24);
}

#[test]
fn byte_size_of_index_array() {
    let indices: Vec<u32> = vec![0, 1, 2];
    assert_eq!(byte_size_of_array(&indices), 12);
    let bytes: Vec<u8> = vec![7; 5];
    assert_eq!(byte_size_of_array(&bytes), 5);
}

#[test]
fn byte_size_of_empty_array() {
    let empty: Vec<u64> = Vec::new();
    assert_eq!(byte_size_of_array(&empty), 0);
}

#[test]
fn size_of_common_types() {
    assert_eq!(size_of::<f32>(), 4);
    assert_eq!(size_of::<u64>(), 8);
    assert_eq!(size_of::<u8>(), 1);
    assert_eq!(size_of::<[f32; 3]>(), 12);
    assert_eq!(size_of::<()>(), 0);
}

#[test]
fn offset_counts_whole_elements() {
    assert_eq!(offset::<f32>(0), 0);
    assert_eq!(offset::<f32>(3), 12);
    assert_eq!(offset::<u64>(5), 40);
    assert_eq!(offset::<u8>(7), 7);
}

#[test]
fn vertex_attributes_of_float_vertices() {
    let attrs = vertex_attributes::<f32>();
    assert_eq!(
        attrs,
        vec![
            AttributeLayout { location: 0, components: 3, stride: 12 },
            AttributeLayout { location: 1, components: 4, stride: 16 },
            AttributeLayout { location: 2, components: 3, stride: 12 },
        ]
    );
}

#[test]
fn vertex_attributes_of_double_vertices() {
    let attrs = vertex_attributes::<u64>();
    assert_eq!(attrs[0].stride, 24);
    assert_eq!(attrs[1].stride, 32);
    assert_eq!(attrs[2].stride, 24);
}
