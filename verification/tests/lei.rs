use patch_hub::components::lei::{
    Lei, LocalMode, MaildirJob, StatusColor, SyncEffect, SyncEvent, SyncStep, sync_step,
    LAST_MONTH_QUERY,
};
use patch_hub::{Action, Key};

fn status_text(lei: &Lei) -> Option<(String, StatusColor)> {
    lei.status().map(|s| (s.text, s.color))
}

#[test]
fn idle_component_shows_nothing() {
    let lei = Lei::new();
    assert!(lei.status().is_none());
}

#[test]
fn r_key_requests_update_only_when_idle() {
    let mut lei = Lei::new();
    assert_eq!(lei.handle_key_event(Key::Char('r')), Some(Action::LeiUpdateMaildir));
    assert_eq!(lei.handle_key_event(Key::Char('q')), None);
    lei.update(Action::LeiEnterProcessing);
    assert_eq!(lei.handle_key_event(Key::Char('r')), None);
}

#[test]
fn update_request_hands_back_job() {
    let mut lei = Lei::new();
    let out = lei.update(Action::LeiUpdateMaildir);
    assert_eq!(out.action, None);
    let job = out.job.unwrap();
    assert_eq!(job.lore_url, "https://lore.kernel.org");
    assert_eq!(job.list, "amd-gfx");
    assert_eq!(job.query, "((s:patch OR s:rfc) AND NOT s:re:) AND rt:1.month.ago..");
    assert!(lei.update(Action::Tick).job.is_none());
}

#[test]
fn spinner_cycles_while_processing() {
    let mut lei = Lei::new();
    lei.update(Action::LeiEnterProcessing);
    assert_eq!(status_text(&lei), Some(("Processing".to_string(), StatusColor::Yellow)));
    lei.update(Action::Tick);
    assert_eq!(status_text(&lei), Some(("Processing.".to_string(), StatusColor::Yellow)));
    lei.update(Action::Tick);
    lei.update(Action::Tick);
    assert_eq!(status_text(&lei), Some(("Processing...".to_string(), StatusColor::Yellow)));
    lei.update(Action::Tick);
    assert_eq!(status_text(&lei), Some(("Processing".to_string(), StatusColor::Yellow)));
}

#[test]
fn mode_texts() {
    let mut lei = Lei::new();
    lei.update(Action::LeiSetMode(LocalMode::Creating));
    lei.update(Action::Tick);
    assert_eq!(status_text(&lei), Some(("Creating maildir.".to_string(), StatusColor::Yellow)));
    lei.update(Action::LeiSetMode(LocalMode::Updating));
    lei.update(Action::Tick);
    assert_eq!(status_text(&lei), Some(("Updating maildir..".to_string(), StatusColor::Yellow)));
    lei.update(Action::LeiExitProcessing);
    assert_eq!(
        status_text(&lei),
        Some(("Finished processing!".to_string(), StatusColor::Cyan))
    );
}

#[test]
fn finished_notice_expires_after_eight_ticks() {
    let mut lei = Lei::new();
    lei.update(Action::LeiEnterProcessing);
    lei.update(Action::LeiExitProcessing);
    for _ in 0..7 {
        assert_eq!(lei.update(Action::Tick).action, None);
    }
    assert_eq!(lei.update(Action::Tick).action, Some(Action::LeiEnterIdle));
    // The count starts over.
    for _ in 0..7 {
        assert_eq!(lei.update(Action::Tick).action, None);
    }
    assert_eq!(lei.update(Action::Tick).action, Some(Action::LeiEnterIdle));
    lei.update(Action::LeiEnterIdle);
    assert!(lei.status().is_none());
}

#[test]
fn idle_ticks_change_nothing() {
    let mut lei = Lei::new();
    for _ in 0..20 {
        let out = lei.update(Action::Tick);
        assert!(out.action.is_none() && out.job.is_none());
    }
    assert!(lei.status().is_none());
}

fn job() -> MaildirJob {
    MaildirJob {
        lore_url: "https://lore.kernel.org".to_string(),
        list: "amd-gfx".to_string(),
        query: LAST_MONTH_QUERY.to_string(),
    }
}

fn run(exists: bool) -> Vec<String> {
    let job = job();
    let maildir = "/data/amd-gfx".to_string();
    let mut step = SyncStep::Start;
    let mut event = SyncEvent::Done;
    let mut trace = Vec::new();
    for _ in 0..20 {
        let (next, effect) = sync_step(step, event, &job, &maildir);
        step = next;
        event = SyncEvent::Done;
        match effect {
            SyncEffect::Send(a) => trace.push(format!("send {:?}", a)),
            SyncEffect::ProbeMaildir => {
                trace.push("probe".to_string());
                event = SyncEvent::Exists(exists);
            }
            SyncEffect::RunLei(args) => trace.push(format!("lei {}", args.join(" "))),
            SyncEffect::Stop => {
                trace.push("stop".to_string());
                break;
            }
        }
    }
    trace
}

#[test]
fn sync_creates_missing_maildir() {
    assert_eq!(
        run(false),
        vec![
            "send LeiEnterProcessing".to_string(),
            "probe".to_string(),
            "send LeiSetMode(Creating)".to_string(),
            format!(
                "lei q --include=https://lore.kernel.org/amd-gfx/ --output=/data/amd-gfx --threads --dedupe=mid {}",
                LAST_MONTH_QUERY
            ),
            "send LeiSetMode(Updating)".to_string(),
            "lei up /data/amd-gfx".to_string(),
            "send LeiExitProcessing".to_string(),
            "stop".to_string(),
        ]
    );
}

#[test]
fn sync_updates_existing_maildir() {
    assert_eq!(
        run(true),
        vec![
            "send LeiEnterProcessing".to_string(),
            "probe".to_string(),
            "send LeiSetMode(Updating)".to_string(),
            "lei up /data/amd-gfx".to_string(),
            "send LeiExitProcessing".to_string(),
            "stop".to_string(),
        ]
    );
}

#[test]
fn probe_without_answer_is_repeated() {
    let (next, effect) = sync_step(SyncStep::Probed, SyncEvent::Done, &job(), &"m".to_string());
    assert_eq!(next, SyncStep::Probed);
    assert!(matches!(effect, SyncEffect::ProbeMaildir));
}
