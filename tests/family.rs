use ti_sbl::family::parse_family;
use ti_sbl::Family;

#[test]
fn family_capabilities() {
    assert!(Family::CC2538.supports_erase());
    assert!(!Family::CC2538.supports_sector_erase());
    assert!(Family::CC2538.supports_set_xosc());
    assert!(Family::CC2538.supports_run());
    assert!(!Family::CC2538.supports_bank_erase());
    assert!(!Family::CC2538.supports_set_ccfg());
    assert!(!Family::CC2538.supports_download_crc());
    for f in [Family::CC26X0, Family::CC26X2] {
        assert!(!f.supports_erase());
        assert!(f.supports_sector_erase());
        assert!(!f.supports_set_xosc());
        assert!(!f.supports_run());
        assert!(f.supports_bank_erase());
        assert!(f.supports_set_ccfg());
    }
    assert!(!Family::CC26X0.supports_download_crc());
    assert!(Family::CC26X2.supports_download_crc());
}

#[test]
fn family_geometry() {
    assert_eq!(Family::CC2538.sector_size(), 2048);
    assert_eq!(Family::CC26X0.sector_size(), 4092);
    assert_eq!(Family::CC26X2.sector_size(), 8192);
    assert_eq!(Family::CC2538.flash_base(), 0x00200000);
    assert_eq!(Family::CC26X0.flash_base(), 0);
    assert_eq!(Family::CC26X2.flash_base(), 0);
}

#[test]
fn address_to_page_counts_sectors_from_flash_base() {
    assert_eq!(Family::CC2538.address_to_page(0x00200000), 0);
    assert_eq!(Family::CC2538.address_to_page(0x00200000 + 3 * 2048), 3);
    assert_eq!(Family::CC26X2.address_to_page(0x2000), 1);
    assert_eq!(Family::CC26X2.address_to_page(0x1FFFF), 15);
    assert_eq!(Family::CC26X0.address_to_page(4092 * 5), 5);
}

#[test]
fn family_names_parse() {
    assert_eq!(parse_family("cc2538"), Ok(Family::CC2538));
    assert_eq!(parse_family("CC2538"), Ok(Family::CC2538));
    assert_eq!(parse_family("cc26x0"), Ok(Family::CC26X0));
    assert_eq!(parse_family("CC26X0"), Ok(Family::CC26X0));
    assert_eq!("cc26x2".parse::<Family>(), Ok(Family::CC26X2));
    assert_eq!("CC26X2".parse::<Family>(), Ok(Family::CC26X2));
    assert!(parse_family("Cc26x2").is_err());
    assert!(parse_family("cc26x1").is_err());
    assert!(parse_family("").is_err());
    let err = parse_family("cc1352").unwrap_err();
    assert_eq!(
        err.to_string(),
        "invalid value, family must be one of: `cc2538`, `cc26x0` or `cc26x2`"
    );
}
