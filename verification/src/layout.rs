use vstd::prelude::*;

verus! {

broadcast use vstd::layout::layout_of_slices;

/// Number of bytes the elements of `val` occupy in memory.
///
/// A slice never spans more than `isize::MAX` bytes, which the `requires`
/// states for Verus.
pub fn byte_size_of_array<T>(val: &[T]) -> (bytes: isize)
    requires
        val@.len() * vstd::layout::size_of::<T>() <= isize::MAX,
    ensures
        bytes as int == val@.len() * vstd::layout::size_of::<T>(),
{
    let n: usize = core::mem::size_of_val(val);
    n as isize
}

/// The size of `T` in bytes, as the `i32` that the graphics API takes.
///
/// A size above `i32::MAX` wraps as an `as` conversion does.
pub fn size_of<T>() -> (s: i32)
    ensures
        s == vstd::layout::size_of::<T>() as i32,
        vstd::layout::size_of::<T>() <= i32::MAX ==> s as int == vstd::layout::size_of::<T>(),
{
    let n: usize = core::mem::size_of::<T>();
    n as i32
}

/// Byte offset of the element at index `n` in a buffer of `T`s.
///
/// The size of `T` is taken as a `u32` (wrapping as an `as` conversion does)
/// and the product must fit a `u32`.
pub fn offset<T>(n: u32) -> (bytes: u32)
    requires
        n * (vstd::layout::size_of::<T>() as u32) <= u32::MAX,
    ensures
        bytes == n * (vstd::layout::size_of::<T>() as u32),
{
    let size: usize = core::mem::size_of::<T>();
    n * (size as u32)
}

/// Where one vertex attribute of a vertex array lives, and how it is laid out.
#[derive(Clone, Copy, Debug, PartialEq, Eq, Structural)]
pub struct AttributeLayout {
    /// Attribute location that the shaders read it from.
    pub location: u32,
    /// Number of components per vertex.
    pub components: i32,
    /// Bytes from one vertex's attribute to the next one's.
    pub stride: i32,
}

/// The attribute of the vertex array at `location` when each component is a `T`:
/// positions at 0 with 3 components, colours at 1 with 4 (r, g, b, a),
/// normals at 2 with 3 (x, y, z); the components of one vertex are packed
/// tightly, so the stride is the components' total size.
pub open spec fn spec_vertex_attribute<T>(location: u32) -> AttributeLayout {
    let components: i32 = if location == 1 { 4 } else { 3 };
    AttributeLayout {
        location,
        components,
        stride: (components * vstd::layout::size_of::<T>()) as i32,
    }
}

/// The three vertex attributes (positions, colours, normals) of a vertex
/// array whose components are `T`s, in location order.
pub fn vertex_attributes<T>() -> (attrs: Vec<AttributeLayout>)
    requires
        4 * vstd::layout::size_of::<T>() <= i32::MAX,
    ensures
        attrs@ == seq![
            spec_vertex_attribute::<T>(0),
            spec_vertex_attribute::<T>(1),
            spec_vertex_attribute::<T>(2),
        ],
{
    let size: i32 = size_of::<T>();
    let mut attrs: Vec<AttributeLayout> = Vec::new();
    attrs.push(AttributeLayout { location: 0, components: 3, stride: 3 * size });
    attrs.push(AttributeLayout { location: 1, components: 4, stride: 4 * size });
    attrs.push(AttributeLayout { location: 2, components: 3, stride: 3 * size });
    attrs
}

} // verus!
