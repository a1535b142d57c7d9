use rsynx::mode::choose_mode;
use rsynx::mode::find_colon;
use rsynx::mode::Mode;
use rsynx::sync::SyncError;

#[test]
fn the_server_flag_decides_alone() {
    assert_eq!(choose_mode(true, None, None), Ok(Mode::Serve));
    assert_eq!(choose_mode(true, Some(b"a"), Some(b"host:b")), Ok(Mode::Serve));
}

#[test]
fn a_client_needs_a_source_and_a_destination() {
    assert_eq!(choose_mode(false, None, None), Err(SyncError::ConfigInvalid));
    assert_eq!(choose_mode(false, Some(b"a"), None), Err(SyncError::ConfigInvalid));
    assert_eq!(choose_mode(false, None, Some(b"b")), Err(SyncError::ConfigInvalid));
}

#[test]
fn a_destination_without_a_colon_is_local() {
    assert_eq!(
        choose_mode(false, Some(b"src:dir/a"), Some(b"dst/a")),
        Ok(Mode::Local { source: b"src:dir/a".to_vec(), destination: b"dst/a".to_vec() })
    );
    assert_eq!(
        choose_mode(false, Some(b""), Some(b"")),
        Ok(Mode::Local { source: vec![], destination: vec![] })
    );
}

#[test]
fn a_destination_with_a_colon_names_a_peer() {
    assert_eq!(
        choose_mode(false, Some(b"a.txt"), Some(b"127.0.0.1:dir/a.txt")),
        Ok(Mode::Remote {
            host: b"127.0.0.1".to_vec(),
            source: b"a.txt".to_vec(),
            destination: b"dir/a.txt".to_vec(),
        })
    );
    assert_eq!(
        choose_mode(false, Some(b"a"), Some(b"host:")),
        Ok(Mode::Remote { host: b"host".to_vec(), source: b"a".to_vec(), destination: vec![] })
    );
    assert_eq!(
        choose_mode(false, Some(b"a"), Some(b":b")),
        Ok(Mode::Remote { host: vec![], source: b"a".to_vec(), destination: b"b".to_vec() })
    );
    assert_eq!(
        choose_mode(false, Some(b"a"), Some(b"host:b:c")),
        Ok(Mode::Remote { host: b"host".to_vec(), source: b"a".to_vec(), destination: b"b".to_vec() })
    );
}

#[test]
fn colons_are_found_from_a_position_on() {
    assert_eq!(find_colon(b"a:b:c", 0), 1);
    assert_eq!(find_colon(b"a:b:c", 1), 1);
    assert_eq!(find_colon(b"a:b:c", 2), 3);
    assert_eq!(find_colon(b"a:b:c", 4), 5);
    assert_eq!(find_colon(b"", 0), 0);
}
