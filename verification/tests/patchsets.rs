use patch_hub::components::patchsets::{LocalMode, Message, Patchsets};
use patch_hub::{Action, Key};

fn msg(id: &str, date: &str, refs: Option<Vec<&str>>, subject: &str) -> Message {
    Message {
        m_id: id.to_string(),
        date_time: date.to_string(),
        refs: refs.map(|r| r.into_iter().map(|s| s.to_string()).collect()),
        subject: subject.to_string(),
        from: vec![vec![Some("Dev".to_string()), Some("dev@example.org".to_string())]],
    }
}

fn sample() -> Vec<Message> {
    vec![
        msg("a", "2024-01-01T10:00:00Z", None, "[PATCH 0/2] first series"),
        msg("b", "2024-01-03T10:00:00Z", Some(vec!["a"]), "Re: [PATCH 0/2] first series"),
        msg("c", "2024-01-02T10:00:00Z", Some(vec!["a"]), "[PATCH 1/2] part one"),
        msg("d", "2024-01-05T10:00:00Z", None, "[PATCH] lone fix"),
        msg("e", "2024-01-02T12:00:00Z", Some(vec!["a", "c"]), "Re: [PATCH 1/2] part one"),
    ]
}

fn loaded() -> Patchsets {
    let mut p = Patchsets::new();
    p.load_messages(sample());
    p
}

#[test]
fn new_component_is_idle_and_empty() {
    let p = Patchsets::new();
    assert_eq!(p.local_mode(), LocalMode::Idle);
    assert_eq!(p.index(), 0);
    assert!(p.visible_items().is_none());
    assert!(p.listing().is_empty());
    assert!(p.thread().is_empty());
}

#[test]
fn list_request_is_handed_back() {
    let mut p = Patchsets::new();
    let load = p.update(Action::PatchsetsList("/tmp/dump.json".to_string()));
    assert_eq!(load, Some("/tmp/dump.json".to_string()));
    assert_eq!(p.local_mode(), LocalMode::Idle);
}

#[test]
fn listing_orders_threads_by_latest_activity() {
    let p = loaded();
    assert_eq!(p.local_mode(), LocalMode::Listing);
    assert_eq!(
        p.listing(),
        vec!["[PATCH] lone fix".to_string(), "[PATCH 0/2] first series".to_string()]
    );
    assert_eq!(p.visible_items(), Some(p.listing()));
}

#[test]
fn latest_reply_decides_the_order() {
    // The older thread start gets a reply later than the other thread.
    let mut msgs = sample();
    msgs.push(msg("f", "2024-02-01T00:00:00Z", Some(vec!["a", "b"]), "Re: late reply"));
    let mut p = Patchsets::new();
    p.load_messages(msgs);
    assert_eq!(
        p.listing(),
        vec!["[PATCH 0/2] first series".to_string(), "[PATCH] lone fix".to_string()]
    );
}

#[test]
fn open_thread_shows_indented_tree() {
    let mut p = loaded();
    p.update(Action::PatchsetsAddIndex);
    assert_eq!(p.index(), 1);
    p.update(Action::PatchsetsThread);
    assert_eq!(p.local_mode(), LocalMode::Thread);
    assert_eq!(p.index(), 0);
    // Replies of "a" are kept latest first (b, c); the walk pops the last
    // one first, so c and its reply e come before b.
    assert_eq!(
        p.thread(),
        vec![
            "[PATCH 0/2] first series".to_string(),
            "  \u{21B3} [PATCH 1/2] part one".to_string(),
            "    \u{21B3} Re: [PATCH 1/2] part one".to_string(),
            "  \u{21B3} Re: [PATCH 0/2] first series".to_string(),
        ]
    );
    assert_eq!(p.visible_items(), Some(p.thread()));
}

#[test]
fn thread_starts_with_unindented_subject() {
    let mut p = loaded();
    p.update(Action::PatchsetsThread);
    assert_eq!(p.thread(), vec!["[PATCH] lone fix".to_string()]);
}

#[test]
fn selection_stays_inside_the_list() {
    let mut p = loaded();
    p.update(Action::PatchsetsSubIndex);
    assert_eq!(p.index(), 0);
    p.update(Action::PatchsetsAddIndex);
    p.update(Action::PatchsetsAddIndex);
    p.update(Action::PatchsetsAddIndex);
    assert_eq!(p.index(), 1);
    p.update(Action::PatchsetsSubIndex);
    assert_eq!(p.index(), 0);
}

#[test]
fn selection_moves_inside_an_open_thread() {
    let mut p = loaded();
    p.update(Action::PatchsetsAddIndex);
    p.update(Action::PatchsetsThread);
    for _ in 0..10 {
        p.update(Action::PatchsetsAddIndex);
    }
    assert_eq!(p.index(), 3);
}

#[test]
fn keys_map_to_actions_only_when_a_list_is_shown() {
    let idle = Patchsets::new();
    assert_eq!(idle.handle_key_event(Key::Char('j')), None);
    assert_eq!(idle.handle_key_event(Key::Enter), None);
    let p = loaded();
    assert_eq!(p.handle_key_event(Key::Char('j')), Some(Action::PatchsetsAddIndex));
    assert_eq!(p.handle_key_event(Key::Char('k')), Some(Action::PatchsetsSubIndex));
    assert_eq!(p.handle_key_event(Key::Enter), Some(Action::PatchsetsThread));
    assert_eq!(p.handle_key_event(Key::Char('x')), None);
    assert_eq!(p.handle_key_event(Key::Other), None);
}

#[test]
fn failing_updates_are_reported_beforehand() {
    let mut p = Patchsets::new();
    p.load_messages(Vec::new());
    assert_eq!(p.local_mode(), LocalMode::Listing);
    assert!(!p.can_update(&Action::PatchsetsAddIndex));
    assert!(!p.can_update(&Action::PatchsetsThread));
    assert!(p.can_update(&Action::PatchsetsSubIndex));
    assert!(p.can_update(&Action::Tick));
    let q = loaded();
    assert!(q.can_update(&Action::PatchsetsAddIndex));
    assert!(q.can_update(&Action::PatchsetsThread));
}

#[test]
fn reply_to_unknown_message_is_not_listed() {
    let mut p = Patchsets::new();
    p.load_messages(vec![
        msg("x", "2024-03-01", Some(vec!["missing"]), "Re: orphan"),
        msg("y", "2024-02-01", None, "start"),
    ]);
    assert_eq!(p.listing(), vec!["start".to_string()]);
}

#[test]
fn second_load_counts_earlier_messages_again() {
    let mut p = loaded();
    p.load_messages(Vec::new());
    assert_eq!(p.listing().len(), 4);
    assert_eq!(p.listing()[0], "[PATCH] lone fix".to_string());
    assert_eq!(p.listing()[1], "[PATCH] lone fix".to_string());
}

#[test]
fn duplicate_id_uses_last_message() {
    let mut p = Patchsets::new();
    p.load_messages(vec![
        msg("a", "2024-01-01", None, "old subject"),
        msg("a", "2024-01-02", None, "new subject"),
    ]);
    assert_eq!(p.listing(), vec!["new subject".to_string(), "new subject".to_string()]);
}

#[test]
fn self_reply_walk_ends() {
    let mut p = Patchsets::new();
    p.load_messages(vec![
        msg("r", "2024-01-01", None, "root"),
        msg("r", "2024-01-02", Some(vec!["r"]), "loop"),
    ]);
    p.update(Action::PatchsetsThread);
    assert_eq!(p.thread(), vec!["loop".to_string(), "  \u{21B3} loop".to_string()]);
}

#[test]
fn open_thread_appends_to_earlier_lines() {
    let mut p = loaded();
    p.open_thread();
    p.update(Action::PatchsetsThread);
    assert_eq!(p.thread().len(), 2);
    assert_eq!(p.thread()[1], "[PATCH] lone fix".to_string());
}
