use gshare3::access::{ip_allowed_outright, ip_authorized, IpAddress};
use gshare3::cli::DirectoryListingViewType;
use gshare3::state::{AppState, Root, RootSet};

fn state_with(allowlist: Vec<IpAddress>) -> AppState {
    AppState {
        whitelisted_ips: allowlist,
        paths: RootSet::new(vec![Root { path: "/srv".to_string(), is_directory: true }]).unwrap(),
        upload: false,
        upload_overwrite: false,
        default_view: DirectoryListingViewType::Grid,
        title: None,
    }
}

const SERVER: IpAddress = IpAddress::V4(0xc0a8_0001);
const FRIEND: IpAddress = IpAddress::V4(0xc0a8_0017);
const STRANGER: IpAddress = IpAddress::V4(0xc0a8_0063);

#[test]
fn an_empty_allowlist_lets_everyone_in() {
    let state = state_with(Vec::new());
    assert!(ip_authorized(&state, &STRANGER, &SERVER));
    assert!(ip_allowed_outright(&state, &STRANGER));
    assert!(ip_authorized(&state, &IpAddress::V6(0x2001_0db8 << 96), &SERVER));
}

#[test]
fn an_allowlisted_address_gets_in() {
    let state = state_with(vec![IpAddress::V4(0x0a00_0001), FRIEND]);
    assert!(ip_authorized(&state, &FRIEND, &SERVER));
    assert!(ip_allowed_outright(&state, &FRIEND));
}

#[test]
fn a_stranger_is_kept_out() {
    let state = state_with(vec![FRIEND]);
    assert!(!ip_authorized(&state, &STRANGER, &SERVER));
    assert!(!ip_allowed_outright(&state, &STRANGER));
    assert!(!ip_authorized(&state, &IpAddress::V4(0xc0a8_0018), &SERVER));
}

#[test]
fn loopback_always_gets_in() {
    let state = state_with(vec![FRIEND]);
    assert!(ip_authorized(&state, &IpAddress::V4(0x7f00_0001), &SERVER));
    assert!(ip_authorized(&state, &IpAddress::V4(0x7fff_ffff), &SERVER));
    assert!(ip_authorized(&state, &IpAddress::V4(0x7f00_0000), &SERVER));
    assert!(ip_authorized(&state, &IpAddress::V6(1), &SERVER));
    assert!(IpAddress::V4(0x7f00_0001).is_loopback());
    assert!(!IpAddress::V4(0x7eff_ffff).is_loopback());
    assert!(!IpAddress::V4(0x8000_0000).is_loopback());
    assert!(!IpAddress::V6(2).is_loopback());
    assert!(!IpAddress::V6(0).is_loopback());
}

#[test]
fn the_server_itself_gets_in() {
    let state = state_with(vec![FRIEND]);
    assert!(ip_authorized(&state, &SERVER, &SERVER));
    assert!(!ip_allowed_outright(&state, &SERVER));
}

#[test]
fn addresses_match_only_if_equal() {
    let state = state_with(vec![FRIEND]);
    let mapped = IpAddress::V6(0xffff_c0a8_0017);
    assert!(!ip_authorized(&state, &mapped, &SERVER));
    let mapped_loopback = IpAddress::V6(0xffff_7f00_0001);
    assert!(!ip_authorized(&state, &mapped_loopback, &SERVER));
    assert!(!ip_authorized(&state, &IpAddress::V6(0xc0a8_0017), &SERVER));
}
