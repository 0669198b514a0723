use rts_engine::engine::map::Tile;
use rts_engine::hud::{terrain_info, EventLog, LOG_CAPACITY};

fn opening_log() -> EventLog {
    EventLog::new(vec![
        ("RTS Engine v1.0 started.".to_string(), false),
        ("5 units deployed.".to_string(), false),
        ("Enemy forces nearby!".to_string(), true),
        ("Wave 1 incoming in 4 s.".to_string(), true),
    ])
}

#[test]
fn log_push_appends_in_order() {
    let mut log = opening_log();
    log.push("3 enemies slain!".to_string(), true);
    assert_eq!(log.messages.len(), 5);
    assert_eq!(log.messages[0], ("RTS Engine v1.0 started.".to_string(), false));
    assert_eq!(log.messages[4], ("3 enemies slain!".to_string(), true));
}

#[test]
fn log_fills_up_to_capacity() {
    let mut log = opening_log();
    for i in 0..12 {
        log.push(format!("msg {}", i), false);
    }
    assert_eq!(log.messages.len(), LOG_CAPACITY);
    assert_eq!(log.messages[0].0, "RTS Engine v1.0 started.");
    assert_eq!(log.messages[15].0, "msg 11");
}

#[test]
fn log_drops_oldest_when_full() {
    let mut log = opening_log();
    for i in 0..13 {
        log.push(format!("msg {}", i), i % 2 == 0);
    }
    assert_eq!(log.messages.len(), LOG_CAPACITY);
    assert_eq!(log.messages[0].0, "5 units deployed.");
    assert_eq!(log.messages[15], ("msg 12".to_string(), true));
    for i in 13..40 {
        log.push(format!("msg {}", i), false);
        assert_eq!(log.messages.len(), LOG_CAPACITY);
    }
    assert_eq!(log.messages[0].0, "msg 24");
    assert_eq!(log.messages[15].0, "msg 39");
}

#[test]
fn terrain_panel_labels() {
    assert_eq!(terrain_info(&Tile::Grass), ("Grassland", true, "2"));
    assert_eq!(terrain_info(&Tile::DarkGrass), ("Dense Grass", true, "2"));
    assert_eq!(terrain_info(&Tile::Wall), ("Stone Wall", false, "—"));
    assert_eq!(terrain_info(&Tile::Water), ("Water", false, "—"));
    assert_eq!(terrain_info(&Tile::Sand), ("Sand", true, "3"));
    assert_eq!(terrain_info(&Tile::Forest), ("Forest", false, "—"));
    assert_eq!(terrain_info(&Tile::Road), ("Road", true, "1"));
}

#[test]
fn terrain_walk_flag_matches_tile() {
    for t in [Tile::Grass, Tile::DarkGrass, Tile::Wall, Tile::Water, Tile::Sand, Tile::Forest, Tile::Road] {
        assert_eq!(terrain_info(&t).1, t.walkable());
    }
}
