use patch_hub::components::ktree::Ktree;
use patch_hub::{Action, Key};

#[test]
fn z_key_asks_to_apply_placeholder_patch() {
    let k = Ktree::new();
    assert_eq!(
        k.handle_key_event(Key::Char('z')),
        Some(Action::KtreeApply("<patch-filepath>".to_string()))
    );
    assert_eq!(k.handle_key_event(Key::Char('a')), None);
    assert_eq!(k.handle_key_event(Key::Enter), None);
}

#[test]
fn apply_request_hands_back_path() {
    let mut k = Ktree::new();
    assert_eq!(k.update(Action::KtreeApply("/tmp/x.patch".to_string())), Some("/tmp/x.patch".to_string()));
    assert_eq!(k.update(Action::Tick), None);
}
