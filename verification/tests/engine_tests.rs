use activity_roles::commands::{StorageCommand, StorageCommandOptions};
use activity_roles::config::EnvConfig;
use activity_roles::debounce::DebounceRegistry;
use activity_roles::github::{decode_github_content, encode_github_content};
use activity_roles::pager::MemberPager;
use activity_roles::rate_gate::RateGate;

#[test]
fn debounce_collapse_keeps_only_the_last_unit() {
    // Three events for one key in a burst: only the unit scheduled by the
    // last event stays current; the earlier units observe cancellation.
    let mut reg = DebounceRegistry::new();
    let t1 = reg.on_event(1, 7);
    let t2 = reg.on_event(1, 7);
    let t3 = reg.on_event(1, 7);
    assert!(!reg.is_current(1, 7, t1));
    assert!(!reg.is_current(1, 7, t2));
    assert!(reg.is_current(1, 7, t3));

    // A replaced unit must not remove its successor's entry.
    assert!(!reg.complete(1, 7, t1));
    assert!(reg.is_current(1, 7, t3));
    assert!(reg.complete(1, 7, t3));
    assert_eq!(reg.current(1, 7), None);
}

#[test]
fn debounce_keys_are_independent() {
    let mut reg = DebounceRegistry::new();
    let a = reg.on_event(1, 7);
    let b = reg.on_event(2, 7);
    let _ = reg.on_event(1, 7);
    assert!(reg.is_current(2, 7, b));
    assert!(!reg.is_current(1, 7, a));
}

#[test]
fn rate_gate_grants_burst_then_refills() {
    let mut gate = RateGate::new_default(0);
    for _ in 0..10 {
        assert!(gate.try_acquire(0));
    }
    assert!(!gate.try_acquire(0));
    assert!(!gate.try_acquire(5999));
    assert!(gate.try_acquire(6000));
    assert!(!gate.try_acquire(6001));
}

#[test]
fn rate_gate_caps_at_capacity() {
    let mut gate = RateGate::new(2, 100, 0);
    assert!(gate.try_acquire(0));
    assert!(gate.try_acquire(0));
    assert!(!gate.try_acquire(0));
    // A long quiet spell refills to the burst size, no further.
    assert!(gate.try_acquire(100000));
    assert!(gate.try_acquire(100000));
    assert!(!gate.try_acquire(100000));
}

#[test]
fn pager_stops_on_a_short_page() {
    let mut pager = MemberPager::new(3);
    pager.feed_page(&vec![4, 9, 12]);
    assert!(!pager.done);
    assert_eq!(pager.after, 12);
    pager.feed_page(&vec![15]);
    assert!(pager.done);
    assert_eq!(pager.after, 15);
}

#[test]
fn pager_stops_on_an_empty_page() {
    let mut pager = MemberPager::new(2);
    pager.feed_page(&vec![]);
    assert!(pager.done);
    assert_eq!(pager.after, 0);
}

#[test]
fn github_content_round_trips() {
    let data: Vec<u8> = b"guild_id,guild_name\n1,Guild\n".to_vec();
    let encoded = encode_github_content(&data);
    // The coding really transforms its input.
    assert_ne!(encoded.as_bytes(), data.as_slice());
    let decoded = decode_github_content(&encoded).unwrap();
    assert_eq!(decoded, data);
}

#[test]
fn github_content_decoding_strips_line_breaks() {
    let data: Vec<u8> = b"hello world".to_vec();
    let encoded = encode_github_content(&data);
    let mut broken = String::new();
    for (i, c) in encoded.chars().enumerate() {
        if i == 4 {
            broken.push('\n');
        }
        broken.push(c);
    }
    broken.push('\n');
    assert_eq!(decode_github_content(&broken).unwrap(), data);
}

#[test]
fn github_content_rejects_garbage() {
    assert!(decode_github_content("!!!not base64!!!").is_none());
}

#[test]
fn storage_command_texts_and_needs() {
    let save_file = StorageCommand { storage_command: StorageCommandOptions::SaveToFile };
    assert!(!save_file.needs_github());
    assert!(!save_file.is_load());
    assert_eq!(save_file.success_message(), "Rules saved to file");

    let load_gh = StorageCommand { storage_command: StorageCommandOptions::LoadFromGithub };
    assert!(load_gh.needs_github());
    assert!(load_gh.is_load());
    assert_eq!(load_gh.success_message(), "Rules loaded from github");

    assert_eq!(
        StorageCommand { storage_command: StorageCommandOptions::LoadFromFile }.success_message(),
        "Rules loaded from file"
    );
    assert_eq!(
        StorageCommand { storage_command: StorageCommandOptions::SaveToGithub }.success_message(),
        "Rules saved to github"
    );
}

#[test]
fn env_config_knows_about_github() {
    let with = EnvConfig { discord_token: "t".to_string(), github_token: Some("g".to_string()) };
    let without = EnvConfig { discord_token: "t".to_string(), github_token: None };
    assert!(with.has_github());
    assert!(!without.has_github());
}
