use star_citizen_playtime::codec::{encode_entries, encode_entry, parse_entries, parse_top_response};
use star_citizen_playtime::leaderboard::{
    accept_submission, baked_in_default_endpoint, fallback_global_endpoint,
    global_remote_endpoint, join_endpoint, normalize_endpoint, normalize_entries,
    update_local_entries, LeaderboardClient, LeaderboardEntry,
};

fn entry(name: &str, total: u64) -> LeaderboardEntry {
    LeaderboardEntry { username: name.as_bytes().to_vec(), total_minutes: total }
}

fn as_pairs(list: &[LeaderboardEntry]) -> Vec<(String, u64)> {
    list.iter()
        .map(|e| (String::from_utf8(e.username.clone()).unwrap(), e.total_minutes))
        .collect()
}

#[test]
fn submitting_twice_equals_submitting_once() {
    // idempotence of the update
    let mut once = vec![entry("Ada", 500), entry("Bob", 400)];
    let name = b"Cleo".to_vec();
    update_local_entries(&mut once, &name, 450);
    let mut twice = vec![entry("Ada", 500), entry("Bob", 400)];
    update_local_entries(&mut twice, &name, 450);
    update_local_entries(&mut twice, &name, 450);
    assert_eq!(as_pairs(&once), as_pairs(&twice));
    assert_eq!(as_pairs(&once), vec![
        ("Ada".to_string(), 500),
        ("Cleo".to_string(), 450),
        ("Bob".to_string(), 400),
    ]);
}

#[test]
fn thirty_names_keep_the_top_twenty_five() {
    // the 25 highest totals survive, descending
    let mut list: Vec<LeaderboardEntry> = Vec::new();
    for i in 0..30u64 {
        let name = format!("player{i:02}").into_bytes();
        update_local_entries(&mut list, &name, 10 * (i + 1));
    }
    assert_eq!(list.len(), 25);
    assert_eq!(list[0].total_minutes, 300);
    assert_eq!(list[24].total_minutes, 60);
    for w in list.windows(2) {
        assert!(w[0].total_minutes >= w[1].total_minutes);
    }
}

#[test]
fn matching_is_case_insensitive_and_keeps_the_stored_name() {
    let mut list = vec![entry("Ada", 100)];
    update_local_entries(&mut list, &b"aDa".to_vec(), 250);
    assert_eq!(as_pairs(&list), vec![("Ada".to_string(), 250)]);
}

#[test]
fn a_new_name_is_stored_trimmed() {
    let mut list = Vec::new();
    update_local_entries(&mut list, &b"  Cleo \t".to_vec(), 70);
    assert_eq!(as_pairs(&list), vec![("Cleo".to_string(), 70)]);
}

#[test]
fn tied_totals_keep_first_come_first_ranked() {
    let mut list = Vec::new();
    update_local_entries(&mut list, &b"first".to_vec(), 90);
    update_local_entries(&mut list, &b"second".to_vec(), 90);
    assert_eq!(as_pairs(&list), vec![
        ("first".to_string(), 90),
        ("second".to_string(), 90),
    ]);
}

#[test]
fn entries_round_trip_through_their_record() {
    let list = vec![entry("Ada", 500), entry("with \"quote\"", 9)];
    let bytes = encode_entries(&list);
    let back = parse_entries(&bytes).expect("parses");
    assert_eq!(as_pairs(&back), as_pairs(&list));
    assert_eq!(
        encode_entries(&Vec::new()),
        b"[]".to_vec()
    );
}

#[test]
fn entry_names_with_control_bytes_round_trip_exactly() {
    let list = vec![entry("odd\nname", 3)];
    let bytes = encode_entries(&list);
    let back = parse_entries(&bytes).expect("parses");
    assert_eq!(back[0].username, b"odd\nname".to_vec());
}

#[test]
fn submit_payload_is_one_entry_record() {
    let bytes = encode_entry(&b"Ada".to_vec(), 500);
    assert_eq!(bytes, b"{\"username\":\"Ada\",\"total_minutes\":500}".to_vec());
}

#[test]
fn top_response_accepts_a_bare_list() {
    let body = b"[{\"username\":\"Ada\",\"total_minutes\":500}]".to_vec();
    let got = parse_top_response(&body).expect("parses");
    assert_eq!(as_pairs(&got), vec![("Ada".to_string(), 500)]);
}

#[test]
fn top_response_accepts_an_envelope() {
    let mut body = b"{\"entries\":[{\"username\":\"Ada\",\"total_minutes\":500},".to_vec();
    body.extend_from_slice(b"{\"username\":\"Bob\",\"total_minutes\":400}],");
    body.extend_from_slice(b"\"leaderboard\":\"global\",\"generated_at\":null,\"count\":2}");
    let got = parse_top_response(&body).expect("parses");
    assert_eq!(as_pairs(&got), vec![("Ada".to_string(), 500), ("Bob".to_string(), 400)]);
}

#[test]
fn top_response_accepts_entries_at_any_position() {
    // metadata before the list, including nested values
    let mut body = b"{\"leaderboard\":\"global\",\"meta\":{\"region\":\"eu\",".to_vec();
    body.extend_from_slice(b"\"tags\":[1,-2.5,true,null,[]],\"empty\":{}},");
    body.extend_from_slice(b"\"entries\":[{\"username\":\"Ada\",\"total_minutes\":500}],");
    body.extend_from_slice(b"\"count\":1}");
    let got = parse_top_response(&body).expect("parses");
    assert_eq!(as_pairs(&got), vec![("Ada".to_string(), 500)]);
}

#[test]
fn top_response_rejects_other_shapes() {
    assert!(parse_top_response(&b"{\"other\":1}".to_vec()).is_none());
    assert!(parse_top_response(&b"".to_vec()).is_none());
}

#[test]
fn endpoints_resolve_in_order() {
    // no baked-in default here, so the runtime value wins, else the fallback
    assert!(baked_in_default_endpoint().is_none());
    assert_eq!(
        fallback_global_endpoint().unwrap(),
        b"https://playtracker.al1e.dev".to_vec()
    );
    assert_eq!(
        global_remote_endpoint(None).unwrap(),
        b"https://playtracker.al1e.dev".to_vec()
    );
    let custom = b" https://example.test ".to_vec();
    assert_eq!(
        global_remote_endpoint(Some(&custom)).unwrap(),
        b"https://example.test".to_vec()
    );
    let blank = b"   ".to_vec();
    assert_eq!(
        global_remote_endpoint(Some(&blank)).unwrap(),
        b"https://playtracker.al1e.dev".to_vec()
    );
}

#[test]
fn loaded_lists_are_sorted_and_capped() {
    let mut list: Vec<LeaderboardEntry> = (0..28u64)
        .map(|i| entry(&format!("p{i}"), i))
        .collect();
    normalize_entries(&mut list);
    assert_eq!(list.len(), 25);
    assert_eq!(list[0].total_minutes, 27);
    for w in list.windows(2) {
        assert!(w[0].total_minutes >= w[1].total_minutes);
    }
}

#[test]
fn blank_names_are_rejected_for_submission() {
    assert!(!accept_submission(&b"".to_vec()));
    assert!(!accept_submission(&b"  	 ".to_vec()));
    assert!(accept_submission(&b" Ada ".to_vec()));
}

#[test]
fn normalize_endpoint_trims_and_drops_blanks() {
    assert_eq!(
        normalize_endpoint(&b"  https://x ".to_vec()),
        Some(b"https://x".to_vec())
    );
    assert_eq!(normalize_endpoint(&b" \t ".to_vec()), None);
}

#[test]
fn client_resolution_follows_the_override() {
    let dir = b"/data".to_vec();
    match LeaderboardClient::auto(&dir, None, None) {
        LeaderboardClient::Remote { endpoint, secondary } => {
            assert_eq!(endpoint, b"https://playtracker.al1e.dev".to_vec());
            assert!(secondary.is_none());
        }
        _ => panic!("expected the shared remote endpoint"),
    }
    match LeaderboardClient::auto(&dir, Some(&b"Default".to_vec()), None) {
        LeaderboardClient::Remote { secondary, .. } => assert!(secondary.is_none()),
        _ => panic!("expected remote"),
    }
    match LeaderboardClient::auto(&dir, Some(&b"LOCAL".to_vec()), None) {
        LeaderboardClient::Local { path } => {
            assert_eq!(path, b"/data/leaderboard.json".to_vec());
        }
        _ => panic!("expected the local file"),
    }
    match LeaderboardClient::auto(&dir, Some(&b"https://mine.test".to_vec()), None) {
        LeaderboardClient::Remote { endpoint, secondary } => {
            assert_eq!(endpoint, b"https://mine.test".to_vec());
            assert_eq!(secondary, Some(b"https://playtracker.al1e.dev".to_vec()));
        }
        _ => panic!("expected a custom remote"),
    }
    match LeaderboardClient::auto(&dir, Some(&b"https://playtracker.al1e.DEV".to_vec()), None) {
        LeaderboardClient::Remote { secondary, .. } => assert!(secondary.is_none()),
        _ => panic!("expected remote without a secondary"),
    }
}

#[test]
fn endpoint_segments_join_with_one_separator() {
    assert_eq!(
        join_endpoint(&b"https://x.test".to_vec(), &b"submit".to_vec()),
        b"https://x.test/submit".to_vec()
    );
    assert_eq!(
        join_endpoint(&b"https://x.test/".to_vec(), &b"top".to_vec()),
        b"https://x.test/top".to_vec()
    );
}
