use massif::options::{
    check_staging, check_zooms, output_kind, parse_read_buffer_size, OptionError, OutputKind,
};

#[test]
fn read_buffer_sizes() {
    assert_eq!(parse_read_buffer_size("1024"), Ok(1024));
    assert_eq!(parse_read_buffer_size("2048"), Ok(2048));
    for value in ["", "512", " 1024", "1024 ", "+1024", "01024"] {
        assert_eq!(
            parse_read_buffer_size(value),
            Err("read buffer size must be either 1024 or 2048".to_owned())
        );
    }
}

#[test]
fn containers_by_extension() {
    assert!(matches!(output_kind(Some("pmtiles".to_owned())), Ok(OutputKind::Pmtiles)));
    assert!(matches!(output_kind(Some("mbtiles".to_owned())), Ok(OutputKind::Mbtiles)));
    assert!(matches!(
        output_kind(None),
        Err(OptionError::UnknownExtension { extension: None })
    ));
    match output_kind(Some("PMTILES".to_owned())) {
        Err(OptionError::UnknownExtension { extension }) => {
            assert_eq!(extension, Some("PMTILES".to_owned()))
        }
        _ => panic!("an unknown extension"),
    }
}

#[test]
fn zooms_in_order_and_not_too_deep() {
    assert!(check_zooms(5, 12).is_ok());
    assert!(check_zooms(31, 31).is_ok());
    assert!(matches!(check_zooms(6, 5), Err(OptionError::ZoomOrder)));
    assert!(matches!(check_zooms(40, 33), Err(OptionError::ZoomOrder)));
    assert!(matches!(check_zooms(0, 32), Err(OptionError::ZoomTooDeep)));
}

#[test]
fn staging_is_for_pmtiles() {
    assert!(check_staging(OutputKind::Pmtiles, true, true).is_ok());
    assert!(check_staging(OutputKind::Mbtiles, false, false).is_ok());
    assert!(matches!(
        check_staging(OutputKind::Mbtiles, true, true),
        Err(OptionError::KeepTempNeedsPmtiles)
    ));
    assert!(matches!(
        check_staging(OutputKind::Mbtiles, false, true),
        Err(OptionError::BuildFromTempNeedsPmtiles)
    ));
}
