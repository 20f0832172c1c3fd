use mem_rearrange::{Layout, Rearranging, SchemeError};
use ndarray_layout::{ArrayLayout, Endian};

fn layout_of<const N: usize>(layout: &ArrayLayout<N>) -> Layout {
    Layout::new(layout.shape(), layout.strides(), layout.offset())
}

#[test]
fn array_layouts_are_planned() {
    let shape = [4, 3, 2, 1, 2, 3, 4];
    let dst = ArrayLayout::<7>::new(&shape, &[288, 96, 48, 48, 24, 8, 2], 0);
    let src = ArrayLayout::<7>::new(&shape, &[576, 192, 96, 48, 8, 16, 2], 0);
    let scheme = Rearranging::new(&layout_of(&dst), &layout_of(&src), 2).unwrap();
    assert_eq!(scheme.ndim(), 3);
    assert_eq!(scheme.unit(), 8);
    assert_eq!(scheme.count(), 144);
    assert_eq!(scheme.idx_strides(), [6, 3, 1]);
    assert_eq!(scheme.dst_strides(), [48, 24, 8]);
    assert_eq!(scheme.src_strides(), [96, 8, 16]);
    assert_eq!(scheme.shape(), [24, 2, 3]);
}

#[test]
fn array_layouts_of_different_inline_sizes_are_planned() {
    let dst = ArrayLayout::<2>::new(&[2, 3, 4], &[12, 4, 1], 5);
    let src = ArrayLayout::<4>::new(&[2, 3, 4], &[1, 2, 6], 0);
    let scheme = Rearranging::new(&layout_of(&dst), &layout_of(&src), 1).unwrap();
    assert_eq!(scheme.dst_offset(), 5);
    assert_eq!(scheme.src_offset(), 0);
    assert_eq!(scheme.dst_strides(), [12, 4, 1]);
    assert_eq!(scheme.src_strides(), [1, 2, 6]);
    assert_eq!(scheme.count(), 24);
}

#[test]
fn contiguous_array_layouts_become_one_copy() {
    let dst = ArrayLayout::<3>::new_contiguous(&[2, 3, 4], Endian::BigEndian, 4);
    let src = ArrayLayout::<3>::new_contiguous(&[2, 3, 4], Endian::BigEndian, 4);
    let scheme = Rearranging::new(&layout_of(&dst), &layout_of(&src), 4).unwrap();
    assert_eq!(scheme.ndim(), 0);
    assert_eq!(scheme.unit(), 96);
    assert_eq!(scheme.count(), 1);
}

#[test]
fn a_transposed_array_layout_is_planned() {
    let dst = ArrayLayout::<2>::new_contiguous(&[3, 4], Endian::BigEndian, 2);
    let src = ArrayLayout::<2>::new_contiguous(&[3, 4], Endian::LittleEndian, 2);
    let scheme = Rearranging::new(&layout_of(&dst), &layout_of(&src), 2).unwrap();
    assert_eq!(scheme.unit(), 2);
    assert_eq!(scheme.dst_strides(), [8, 2]);
    assert_eq!(scheme.src_strides(), [2, 6]);
    assert_eq!(scheme.shape(), [3, 4]);
}

#[test]
fn array_layouts_of_different_shapes_are_a_mismatch() {
    let dst = ArrayLayout::<2>::new(&[2, 3], &[3, 1], 0);
    let src = ArrayLayout::<2>::new(&[3, 2], &[2, 1], 0);
    let planned = Rearranging::new(&layout_of(&dst), &layout_of(&src), 1);
    assert_eq!(planned.err(), Some(SchemeError::ShapeMismatch));
}
