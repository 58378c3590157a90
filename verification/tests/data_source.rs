use pipnn::data_source::{
    parse_header, BinHeader, BinWindow, SliceDataSource, VectorDataSource,
};
use pipnn::dispatch::{IndexSource, IndexTQOperation, Remark, TurboQuantized};

#[test]
fn test_slice_data_source() {
    let data = vec![1.0f32, 2.0, 3.0, 4.0, 5.0, 6.0];
    let src = SliceDataSource::new(&data, 2, 3);
    assert_eq!(src.get(0), &[1.0, 2.0, 3.0]);
    assert_eq!(src.get(1), &[4.0, 5.0, 6.0]);
    assert_eq!(src.npoints(), 2);
    assert_eq!(src.ndims(), 3);
}

#[test]
fn test_slice_data_source_f16() {
    let data: Vec<half::f16> =
        vec![1.0, 2.0, 3.0, 4.0].into_iter().map(half::f16::from_f32).collect();
    let src = SliceDataSource::new(&data, 2, 2);
    assert_eq!(src.get(0).len(), 2);
    assert_eq!(src.get(1).len(), 2);
}

#[test]
fn test_mmap_data_source() {
    let data: Vec<f32> = vec![1.0, 2.0, 3.0, 4.0, 5.0, 6.0];
    let mut bytes: Vec<u8> = Vec::new();
    bytes.extend_from_slice(&3u32.to_le_bytes());
    bytes.extend_from_slice(&2u32.to_le_bytes());
    bytes.extend_from_slice(bytemuck::cast_slice(&data));
    let header = parse_header(&bytes).unwrap();
    assert_eq!(header, BinHeader { npoints: 3, ndims: 2 });
    let get = |w: &BinWindow, i: usize| -> Vec<f32> {
        let (start, end) = w.byte_range(i);
        bytes[start..end]
            .chunks_exact(4)
            .map(|c| f32::from_le_bytes([c[0], c[1], c[2], c[3]]))
            .collect()
    };
    let full = BinWindow::new(header, 4, 0, None);
    assert_eq!(full.npoints, 3);
    assert_eq!(full.ndims, 2);
    assert_eq!(get(&full, 0), &[1.0, 2.0]);
    assert_eq!(get(&full, 1), &[3.0, 4.0]);
    assert_eq!(get(&full, 2), &[5.0, 6.0]);
    let part = BinWindow::new(header, 4, 1, Some(2));
    assert_eq!(part.npoints, 2);
    assert_eq!(get(&part, 0), &[3.0, 4.0]);
    assert_eq!(get(&part, 1), &[5.0, 6.0]);
    assert_eq!(BinWindow::new(header, 4, 1, Some(9)).npoints, 2);
    assert_eq!(BinWindow::new(header, 4, 1, None).npoints, 2);
    assert_eq!(BinWindow::new(header, 4, 7, Some(1)).npoints, 0);
    assert_eq!(parse_header(&bytes[..7]), None);
}

#[test]
fn requests_are_scored() {
    let op = |source, full_precision_matches| IndexTQOperation {
        source,
        data_type_matches: full_precision_matches,
        full_precision_matches,
    };
    let build = |multi_insert| IndexSource::Build { multi_insert };
    assert_eq!(TurboQuantized::try_match(&op(IndexSource::Load, true)), Ok(0));
    assert_eq!(TurboQuantized::try_match(&op(build(false), true)), Ok(0));
    assert_eq!(TurboQuantized::try_match(&op(build(true), true)), Err(1));
    assert_eq!(TurboQuantized::try_match(&op(build(false), false)), Err(1));
    assert_eq!(TurboQuantized::try_match(&op(build(true), false)), Err(2));
    assert_eq!(TurboQuantized::try_match(&op(IndexSource::Load, false)), Err(1));
    let taken = op(build(false), true);
    assert_eq!(*TurboQuantized::new(&taken).input, taken);
    assert_eq!(*TurboQuantized::convert(&taken).input, taken);
    let described = |from: Option<&IndexTQOperation>| TurboQuantized::description(from);
    assert_eq!(described(None), [Remark::BuildAndSearch, Remark::RequiredData]);
    assert_eq!(described(Some(&taken)), []);
    assert_eq!(described(Some(&op(IndexSource::Load, false))), [Remark::OtherDataType]);
    assert_eq!(
        described(Some(&op(build(true), false))),
        [Remark::OtherDataType, Remark::NoMultiInsert]
    );
}
