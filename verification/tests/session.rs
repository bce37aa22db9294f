use quartz_engine::session::{Effect, GameSlot, Session};

fn edited() -> Session {
    Session { game: Some(GameSlot { has_state: true, running: false }), building: false }
}

#[test]
fn new_session_has_no_game() {
    let s = Session::new();
    assert_eq!(s.game, None);
    assert!(!s.building);
    assert!(s.can_build());
    assert!(!s.can_start());
    assert!(!s.can_stop());
    assert_eq!(s.update(), None);
    assert!(s.save_scene().is_empty());
}

#[test]
fn saving_writes_the_edited_scene() {
    assert_eq!(edited().save_scene(), vec![Effect::CreateSceneFile, Effect::WriteScene]);
    let stateless = Session { game: Some(GameSlot { has_state: false, running: false }), building: false };
    assert_eq!(stateless.save_scene(), vec![Effect::CreateSceneFile]);
}

#[test]
fn no_save_while_running() {
    let s = Session { game: Some(GameSlot { has_state: true, running: true }), building: false };
    assert!(s.save_scene().is_empty());
}

#[test]
fn start_then_stop_reloads_the_saved_scene() {
    let mut s = edited();
    assert!(s.can_start());
    let e = s.start();
    assert_eq!(e, vec![Effect::CreateSceneFile, Effect::WriteScene, Effect::StartGame]);
    assert_eq!(s.game, Some(GameSlot { has_state: true, running: true }));
    assert!(s.can_stop());
    assert_eq!(s.update(), Some(Effect::UpdateGame));
    assert!(s.start().is_empty());
    let e = s.stop();
    assert_eq!(e, vec![Effect::ReloadGame]);
    assert_eq!(s, edited());
    assert_eq!(s.update(), Some(Effect::EditorUpdateGame));
    assert!(s.stop().is_empty());
}

#[test]
fn build_drops_state_until_loaded() {
    let mut s = edited();
    let e = s.build();
    assert_eq!(
        e,
        vec![Effect::CreateSceneFile, Effect::WriteScene, Effect::DropGameState, Effect::SpawnBuild]
    );
    assert!(s.building);
    assert!(!s.can_build());
    assert!(s.build().is_empty());
    assert_eq!(s.update(), None);
    assert_eq!(s.render(), Some(Effect::DropGame));
    assert_eq!(s.game, None);
    assert_eq!(s.render(), None);
    assert_eq!(s.build_finished(true), vec![Effect::LoadGame]);
    assert_eq!(s, edited());
}

#[test]
fn build_without_game_only_spawns() {
    let mut s = Session::new();
    assert_eq!(s.build(), vec![Effect::SpawnBuild]);
    assert!(s.building);
    assert_eq!(s.game, None);
}

#[test]
fn failed_build_keeps_the_game() {
    let mut s = Session::new();
    s.build();
    assert!(s.build_finished(false).is_empty());
    assert_eq!(s, Session::new());
}

#[test]
fn start_game_without_state_only_saves() {
    let mut s = Session { game: Some(GameSlot { has_state: false, running: false }), building: true };
    assert_eq!(s.start_game(), vec![Effect::CreateSceneFile]);
    assert_eq!(s.game, Some(GameSlot { has_state: false, running: true }));
    assert!(s.building);
}
