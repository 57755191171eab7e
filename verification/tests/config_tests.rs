use minkv::config::{u16_to_dec, Config};

#[test]
fn config_defaults() {
    let cfg = Config::new();
    assert_eq!(cfg.db_dir, "./dbdata".to_string());
    assert_eq!(cfg.file, "data".to_string());
    assert_eq!(cfg.file_max_size, 1024 * 100);
    assert_eq!(cfg.sync_keys, 0);
    assert_eq!(cfg.address, "127.0.0.1".to_string());
    assert_eq!(cfg.port, 6380);
    assert_eq!(cfg.merge_file_num, 10);
}

#[test]
fn config_paths() {
    let cfg = Config::new();
    assert_eq!(cfg.merge_dir(), "./dbdata/.merge".to_string());
    assert_eq!(cfg.get_filepath_by_seq(2), "./dbdata/data.2".to_string());
    assert_eq!(cfg.get_hint_filepath_by_seq(13), "./dbdata/hint.13".to_string());
    assert_eq!(cfg.get_merge_filepath_by_seq(4), "./dbdata/.merge/4".to_string());
    assert_eq!(
        cfg.get_merge_hint_filepath_by_seq(4),
        "./dbdata/.merge/4.hint".to_string()
    );
    assert_eq!(cfg.get_active_filepath(), "./dbdata/data".to_string());
    assert_eq!(cfg.get_next_datafile(9), "./dbdata/data.9".to_string());
    let (addr, port) = cfg.get_addr_port();
    assert_eq!(addr, "127.0.0.1".to_string());
    assert_eq!(port, 6380);
    assert_eq!(cfg.file(), "data");
    assert_eq!(cfg.data_dir(), "./dbdata");
    assert_eq!(cfg.file_max_size(), 102400);
    assert_eq!(cfg.get_merge_file_num(), 10);
    assert_eq!(cfg.get_sync_keys_num(), 0);
}

#[test]
fn decimal_formatting() {
    assert_eq!(u16_to_dec(0), "0".to_string());
    assert_eq!(u16_to_dec(7), "7".to_string());
    assert_eq!(u16_to_dec(10), "10".to_string());
    assert_eq!(u16_to_dec(409), "409".to_string());
    assert_eq!(u16_to_dec(65535), "65535".to_string());
}
