use yakuna::{reply_text, respond, Visibility, SCOLD};

#[test]
fn reply_body_addresses_the_author() {
    assert_eq!(reply_text("alice", "焼くな"), "@alice 焼くな");
    assert_eq!(reply_text("bob@example.com", "hi"), "@bob@example.com hi");
    assert_eq!(reply_text("", ""), "@ ");
}

#[test]
fn matching_post_gets_a_reply() {
    let r = respond("あひる焼き", "alice", Visibility::Unlisted, "1234").unwrap();
    assert_eq!(r.text, "@alice 焼くな");
    assert_eq!(r.visibility, Visibility::Unlisted);
    assert_eq!(r.in_reply_to, "1234");
}

#[test]
fn reply_keeps_each_visibility() {
    let all = [Visibility::Direct, Visibility::Private, Visibility::Unlisted, Visibility::Public];
    for v in all.iter() {
        let r = respond("<p>3v.7g</p>", "carol", *v, "9").unwrap();
        assert_eq!(r.visibility, *v);
        assert_eq!(r.text, format!("@carol {}", SCOLD));
    }
}

#[test]
fn other_post_gets_no_reply() {
    assert!(respond("焼きあひる", "alice", Visibility::Public, "1").is_none());
    assert!(respond("", "alice", Visibility::Public, "1").is_none());
}
