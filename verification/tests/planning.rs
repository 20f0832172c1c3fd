use mem_rearrange::{Dim, Layout, Rearranging, SchemeError};

#[test]
fn test_scheme() {
    let shape = [4, 3, 2, 1, 2, 3, 4];
    let dst = [288, 96, 48, 48, 24, 8, 2];
    let src = [576, 192, 96, 48, 8, 16, 2];
    let dst = Layout::new(&shape, &dst, 0);
    let src = Layout::new(&shape, &src, 0);
    let scheme = Rearranging::new(&dst, &src, 2).unwrap();
    assert_eq!(scheme.ndim(), 3);
    assert_eq!(scheme.dst_offset(), 0);
    assert_eq!(scheme.src_offset(), 0);
    assert_eq!(scheme.unit(), 8);
    assert_eq!(scheme.count(), 24 * 2 * 3);
    assert_eq!(scheme.idx_strides(), [6, 3, 1]);
    assert_eq!(scheme.dst_strides(), [48, 24, 8]);
    assert_eq!(scheme.src_strides(), [96, 8, 16]);
    assert_eq!(scheme.shape(), [24, 2, 3]);
}

#[test]
fn test_distribute_unit() {
    let shape = [4, 3, 2];
    let dst = [24, 8, 2];
    let src = [48, 8, 16];
    let dst = Layout::new(&shape, &dst, 0);
    let src = Layout::new(&shape, &src, 0);
    let scheme = Rearranging::new(&dst, &src, 2).unwrap();

    let candidates = vec![2];
    let new_scheme = scheme.distribute_unit(candidates).unwrap();
    assert_eq!(new_scheme.unit(), 2);
    assert_eq!(new_scheme.count(), scheme.count());
    assert_eq!(new_scheme.idx_strides(), scheme.idx_strides());
    assert_eq!(new_scheme.dst_strides(), scheme.dst_strides());
    assert_eq!(new_scheme.src_strides(), scheme.src_strides());

    let candidates = vec![1];
    let new_scheme = scheme.distribute_unit(candidates).unwrap();
    assert_eq!(new_scheme.unit(), 1);
    assert_eq!(new_scheme.count(), scheme.count() * 2);
    assert_eq!(
        new_scheme
            .idx_strides()
            .iter()
            .take(scheme.idx_strides().len())
            .map(|&x| x / 2)
            .collect::<Vec<_>>(),
        scheme.idx_strides()
    );
    assert_eq!(
        new_scheme
            .dst_strides()
            .iter()
            .take(scheme.idx_strides().len())
            .cloned()
            .collect::<Vec<_>>(),
        scheme.dst_strides()
    );
    assert_eq!(
        new_scheme
            .src_strides()
            .iter()
            .take(scheme.idx_strides().len())
            .cloned()
            .collect::<Vec<_>>(),
        scheme.src_strides()
    );

    let candidates = vec![4, 2, 1];
    let new_scheme = scheme.distribute_unit(candidates).unwrap();
    assert_eq!(new_scheme.unit(), 2);
}

fn merging_scheme() -> Rearranging {
    let shape = [4, 3, 2, 1, 2, 3, 4];
    let dst = Layout::new(&shape, &[288, 96, 48, 48, 24, 8, 2], 0);
    let src = Layout::new(&shape, &[576, 192, 96, 48, 8, 16, 2], 0);
    Rearranging::new(&dst, &src, 2).unwrap()
}

#[test]
fn contiguous_layouts_become_one_copy() {
    let shape = [2, 3, 4];
    let strides = [12, 4, 1];
    let dst = Layout::new(&shape, &strides, 0);
    let src = Layout::new(&shape, &strides, 0);
    let scheme = Rearranging::new(&dst, &src, 1).unwrap();
    assert_eq!(scheme.ndim(), 0);
    assert_eq!(scheme.unit(), 24);
    assert_eq!(scheme.count(), 1);
    assert!(scheme.idx_strides().is_empty());
    assert!(scheme.dst_strides().is_empty());
    assert!(scheme.src_strides().is_empty());
    assert!(scheme.shape().is_empty());
    assert_eq!(scheme.locate(0), Some((0, 0)));
}

#[test]
fn different_shapes_are_a_mismatch() {
    let dst = Layout::new(&[2, 3], &[3, 1], 0);
    let src = Layout::new(&[3, 2], &[2, 1], 0);
    assert_eq!(Rearranging::new(&dst, &src, 1).err(), Some(SchemeError::ShapeMismatch));
}

#[test]
fn different_numbers_of_axes_are_a_mismatch() {
    let dst = Layout::new(&[2, 3], &[3, 1], 0);
    let src = Layout::new(&[2, 3, 1], &[3, 1, 1], 0);
    assert_eq!(Rearranging::new(&dst, &src, 1).err(), Some(SchemeError::ShapeMismatch));
}

#[test]
fn motionless_destination_is_a_reduction() {
    let dst = Layout::new(&[4], &[0], 0);
    let src = Layout::new(&[4], &[1], 0);
    assert_eq!(Rearranging::new(&dst, &src, 1).err(), Some(SchemeError::DimReduce));
}

#[test]
fn the_first_faulty_axis_decides() {
    let dst = Layout::new(&[4, 2], &[0, 1], 0);
    let src = Layout::new(&[4, 3], &[3, 1], 0);
    assert_eq!(Rearranging::new(&dst, &src, 1).err(), Some(SchemeError::DimReduce));
    let dst = Layout::new(&[2, 4], &[1, 0], 0);
    let src = Layout::new(&[3, 4], &[4, 1], 0);
    assert_eq!(Rearranging::new(&dst, &src, 1).err(), Some(SchemeError::ShapeMismatch));
}

#[test]
fn an_axis_of_length_one_may_stand_still() {
    let dst = Layout::new(&[1, 4], &[0, 8], 0);
    let src = Layout::new(&[1, 4], &[0, 2], 0);
    let scheme = Rearranging::new(&dst, &src, 2).unwrap();
    assert_eq!(scheme.ndim(), 1);
    assert_eq!(scheme.unit(), 2);
    assert_eq!(scheme.dst_strides(), [8]);
    assert_eq!(scheme.src_strides(), [2]);
    assert_eq!(scheme.shape(), [4]);
}

#[test]
fn a_motionless_source_is_planned() {
    let dst = Layout::new(&[3, 4], &[4, 1], 0);
    let src = Layout::new(&[3, 4], &[0, 1], 0);
    let scheme = Rearranging::new(&dst, &src, 1).unwrap();
    assert_eq!(scheme.unit(), 4);
    assert_eq!(scheme.count(), 3);
    assert_eq!(scheme.idx_strides(), [1]);
    assert_eq!(scheme.dst_strides(), [4]);
    assert_eq!(scheme.src_strides(), [0]);
}

#[test]
fn axes_are_put_in_canonical_order() {
    let dst = Layout::new(&[2, 3], &[1, 2], 0);
    let src = Layout::new(&[2, 3], &[3, 1], 0);
    let scheme = Rearranging::new(&dst, &src, 1).unwrap();
    assert_eq!(scheme.unit(), 1);
    assert_eq!(scheme.count(), 6);
    assert_eq!(scheme.idx_strides(), [2, 1]);
    assert_eq!(scheme.dst_strides(), [2, 1]);
    assert_eq!(scheme.src_strides(), [1, 3]);
    assert_eq!(scheme.shape(), [3, 2]);
}

#[test]
fn equal_strides_are_ordered_by_length() {
    let dst = Layout::new(&[3, 2], &[4, -4], 0);
    let src = Layout::new(&[3, 2], &[4, -4], 0);
    let scheme = Rearranging::new(&dst, &src, 1).unwrap();
    assert_eq!(scheme.dst_strides(), [-4, 4]);
    assert_eq!(scheme.src_strides(), [-4, 4]);
    assert_eq!(scheme.shape(), [2, 3]);
}

#[test]
fn equal_destination_strides_are_ordered_by_source_stride() {
    let dst = Layout::new(&[2, 2], &[8, -8], 0);
    let src = Layout::new(&[2, 2], &[2, -16], 0);
    let scheme = Rearranging::new(&dst, &src, 1).unwrap();
    assert_eq!(scheme.dst_strides(), [-8, 8]);
    assert_eq!(scheme.src_strides(), [-16, 2]);
}

#[test]
fn offsets_are_carried_over() {
    let dst = Layout::new(&[2, 2], &[-4, 1], 6);
    let src = Layout::new(&[2, 2], &[1, 2], -3);
    let scheme = Rearranging::new(&dst, &src, 1).unwrap();
    assert_eq!(scheme.dst_offset(), 6);
    assert_eq!(scheme.src_offset(), -3);
    assert_eq!(scheme.dst_strides(), [-4, 1]);
    assert_eq!(scheme.src_strides(), [1, 2]);
    assert_eq!(scheme.locate(0), Some((6, -3)));
    assert_eq!(scheme.locate(1), Some((7, -1)));
    assert_eq!(scheme.locate(2), Some((2, -2)));
    assert_eq!(scheme.locate(3), Some((3, 0)));
}

#[test]
fn dims_in_order_are_fused_as_they_stand() {
    let dims = vec![
        Dim { len: 4, dst: 288, src: 576 },
        Dim { len: 3, dst: 96, src: 192 },
        Dim { len: 2, dst: 48, src: 96 },
        Dim { len: 2, dst: 24, src: 8 },
        Dim { len: 3, dst: 8, src: 16 },
        Dim { len: 4, dst: 2, src: 2 },
    ];
    let scheme = Rearranging::from_dims(2, 0, 0, &dims);
    assert_eq!(scheme.unit(), 8);
    assert_eq!(scheme.count(), 144);
    assert_eq!(scheme.idx_strides(), [6, 3, 1]);
    assert_eq!(scheme.dst_strides(), [48, 24, 8]);
    assert_eq!(scheme.src_strides(), [96, 8, 16]);
}

#[test]
fn dims_are_not_reordered_by_from_dims() {
    let dims = vec![Dim { len: 2, dst: 1, src: 3 }, Dim { len: 3, dst: 2, src: 1 }];
    let scheme = Rearranging::from_dims(1, 0, 0, &dims);
    assert_eq!(scheme.dst_strides(), [1, 2]);
    assert_eq!(scheme.src_strides(), [3, 1]);
    assert_eq!(scheme.idx_strides(), [3, 1]);
}

#[test]
fn index_strides_are_products_of_lengths() {
    let scheme = merging_scheme();
    let idx = scheme.idx_strides();
    let shape = scheme.shape();
    assert_eq!(idx[idx.len() - 1], 1);
    assert_eq!(scheme.count(), shape.iter().product::<usize>());
    assert_eq!(scheme.count() as isize, idx[0] * shape[0] as isize);
    for i in 1..idx.len() {
        assert_eq!(idx[i - 1], idx[i] * shape[i] as isize);
    }
}

#[test]
fn no_neighbours_are_left_to_fuse() {
    let scheme = merging_scheme();
    let shape = scheme.shape();
    let dst = scheme.dst_strides();
    let src = scheme.src_strides();
    for i in 1..shape.len() {
        let len = shape[i] as isize;
        assert!(!(dst[i] * len == dst[i - 1] && src[i] * len == src[i - 1]));
    }
}

#[test]
fn distribute_to_a_smaller_unit() {
    let scheme = merging_scheme();
    let split = scheme.distribute_unit(vec![1]).unwrap();
    assert_eq!(split.unit(), 1);
    assert_eq!(split.ndim(), 4);
    assert_eq!(split.count(), 144 * 8);
    assert_eq!(split.idx_strides(), [48, 24, 8, 1]);
    assert_eq!(split.dst_strides(), [48, 24, 8, 1]);
    assert_eq!(split.src_strides(), [96, 8, 16, 1]);
    assert_eq!(split.shape(), [24, 2, 3, 8]);
    assert_eq!(split.dst_offset(), 0);
    assert_eq!(split.src_offset(), 0);
}

#[test]
fn distribute_falls_back_in_the_order_given() {
    let scheme = merging_scheme();
    assert!(scheme.distribute_unit(vec![3]).is_none());
    assert!(scheme.distribute_unit(vec![]).is_none());
    let split = scheme.distribute_unit(vec![5, 4, 3, 2]).unwrap();
    assert_eq!(split.unit(), 4);
    assert_eq!(split.count(), 288);
    assert_eq!(split.idx_strides(), [12, 6, 2, 1]);
    assert_eq!(split.dst_strides(), [48, 24, 8, 4]);
    let split = scheme.distribute_unit(vec![2, 4]).unwrap();
    assert_eq!(split.unit(), 2);
}

#[test]
fn distribute_to_the_own_unit_changes_nothing() {
    let scheme = merging_scheme();
    let same = scheme.distribute_unit(vec![scheme.unit()]).unwrap();
    assert_eq!(same.ndim(), scheme.ndim());
    assert_eq!(same.unit(), scheme.unit());
    assert_eq!(same.count(), scheme.count());
    assert_eq!(same.dst_offset(), scheme.dst_offset());
    assert_eq!(same.src_offset(), scheme.src_offset());
    assert_eq!(same.idx_strides(), scheme.idx_strides());
    assert_eq!(same.dst_strides(), scheme.dst_strides());
    assert_eq!(same.src_strides(), scheme.src_strides());
}

#[test]
fn a_scheme_without_axes_is_split_into_one_axis() {
    let dst = Layout::new(&[6], &[2], 0);
    let src = Layout::new(&[6], &[2], 0);
    let scheme = Rearranging::new(&dst, &src, 2).unwrap();
    assert_eq!(scheme.ndim(), 0);
    assert_eq!(scheme.unit(), 12);
    let split = scheme.distribute_unit(vec![4]).unwrap();
    assert_eq!(split.unit(), 4);
    assert_eq!(split.count(), 3);
    assert_eq!(split.idx_strides(), [1]);
    assert_eq!(split.dst_strides(), [4]);
    assert_eq!(split.src_strides(), [4]);
}

#[test]
fn a_clone_holds_the_same_scheme() {
    let scheme = merging_scheme();
    let copy = scheme.clone();
    assert_eq!(copy.unit(), 8);
    assert_eq!(copy.idx_strides(), scheme.idx_strides());
    assert_eq!(copy.dst_strides(), scheme.dst_strides());
    assert_eq!(copy.src_strides(), scheme.src_strides());
}

#[test]
fn every_copy_is_located() {
    let scheme = merging_scheme();
    assert_eq!(scheme.locate(0), Some((0, 0)));
    assert_eq!(scheme.locate(1), Some((8, 16)));
    assert_eq!(scheme.locate(3), Some((24, 8)));
    assert_eq!(scheme.locate(6), Some((48, 96)));
    assert_eq!(scheme.locate(143), Some((23 * 48 + 24 + 2 * 8, 23 * 96 + 8 + 2 * 16)));
}

#[test]
fn an_offset_beyond_the_word_is_not_located() {
    let dims = vec![Dim { len: 3, dst: isize::MAX, src: 1 }];
    let scheme = Rearranging::from_dims(1, 0, 0, &dims);
    assert_eq!(scheme.locate(1), Some((isize::MAX, 1)));
    assert_eq!(scheme.locate(2), None);
}

#[test]
fn an_empty_axis_leaves_nothing_to_copy() {
    let dst = Layout::new(&[0, 3], &[8, 2], 0);
    let src = Layout::new(&[0, 3], &[3, 1], 0);
    let scheme = Rearranging::new(&dst, &src, 1).unwrap();
    assert_eq!(scheme.count(), 0);
    assert_eq!(scheme.idx_strides(), [3, 1]);
    assert_eq!(scheme.shape(), [0, 3]);
    let dst = Layout::new(&[0, 3], &[6, 2], 0);
    let scheme = Rearranging::new(&dst, &src, 1).unwrap();
    assert_eq!(scheme.count(), 0);
    assert_eq!(scheme.idx_strides(), [1]);
    assert_eq!(scheme.dst_strides(), [2]);
    assert_eq!(scheme.shape(), [0]);
}

#[test]
fn the_size_of_the_array_must_fit() {
    let small = Layout::new(&[4, 3, 2], &[6, 2, 1], 0);
    assert!(small.fits(8));
    assert!(small.fits(0));
    let half = (isize::MAX as usize) / 2;
    let large = Layout::new(&[2, half], &[1, 2], 0);
    assert!(large.fits(1));
    assert!(!large.fits(2));
    let huge = Layout::new(&[3, half, 0], &[1, 2, 3], 0);
    assert!(!huge.fits(1));
    assert!(!Layout::new(&[], &[], 0).fits(usize::MAX));
    assert!(Layout::new(&[], &[], 0).fits(isize::MAX as usize));
}

#[test]
fn a_layout_keeps_what_it_was_given() {
    let layout = Layout::new(&[2, 3, 4], &[12, -4, 1], 20);
    assert_eq!(layout.ndim(), 3);
    assert_eq!(layout.shape(), [2, 3, 4]);
    assert_eq!(layout.strides(), [12, -4, 1]);
    assert_eq!(layout.offset(), 20);
}

fn carry_out(scheme: &Rearranging, dst: &mut [u8], src: &[u8]) {
    let unit = scheme.unit();
    for index in 0..scheme.count() {
        let (to, from) = scheme.locate(index).unwrap();
        let (to, from) = (to as usize, from as usize);
        dst[to..to + unit].copy_from_slice(&src[from..from + unit]);
    }
}

#[test]
fn there_and_back_gives_the_source() {
    let shape = [2, 3, 4];
    let rows = Layout::new(&shape, &[24, 8, 2], 0);
    let turned = Layout::new(&shape, &[2, 16, 4], 0);
    let source: Vec<u8> = (0..48).collect();
    let mut middle = vec![0u8; 48];
    let mut back = vec![0u8; 48];
    carry_out(&Rearranging::new(&turned, &rows, 2).unwrap(), &mut middle, &source);
    assert_ne!(middle, source);
    assert_eq!(&middle[..6], [0, 1, 24, 25, 2, 3]);
    carry_out(&Rearranging::new(&rows, &turned, 2).unwrap(), &mut back, &middle);
    assert_eq!(back, source);
}

#[test]
fn a_motionless_source_axis_fans_out() {
    let shape = [3, 4];
    let dst = Layout::new(&shape, &[4, 1], 0);
    let src = Layout::new(&shape, &[0, 1], 0);
    let source = [7u8, 8, 9, 10];
    let mut out = vec![0u8; 12];
    carry_out(&Rearranging::new(&dst, &src, 1).unwrap(), &mut out, &source);
    assert_eq!(out, [7, 8, 9, 10, 7, 8, 9, 10, 7, 8, 9, 10]);
}

#[test]
fn a_reversed_axis_is_walked_backwards() {
    let dst = Layout::new(&[4], &[1], 0);
    let src = Layout::new(&[4], &[-1], 3);
    let source = [1u8, 2, 3, 4];
    let mut out = vec![0u8; 4];
    carry_out(&Rearranging::new(&dst, &src, 1).unwrap(), &mut out, &source);
    assert_eq!(out, [4, 3, 2, 1]);
}
