use server_manager::{load_ops, OpEntry, ServerConfig, ServerStatus, ServerType, StoreError};

#[test]
fn server_type_display_names() {
    assert_eq!(ServerType::Vanilla.as_str(), "Vanilla");
    assert_eq!(ServerType::PaperMC.as_str(), "PaperMC");
    assert_eq!(ServerType::Forge.as_str(), "Forge");
    assert_eq!(ServerType::Neoforge.as_str(), "NeoForge");
    assert_eq!(ServerType::Fabric.as_str(), "FabricMC");
    assert_eq!(ServerType::Spigot.as_str(), "SpigotMC");
}

#[test]
fn server_type_variants_in_order() {
    assert_eq!(
        ServerType::variants(),
        vec![
            ServerType::Vanilla,
            ServerType::PaperMC,
            ServerType::Forge,
            ServerType::Neoforge,
            ServerType::Fabric,
            ServerType::Spigot,
        ]
    );
}

#[test]
fn server_status_descriptions() {
    assert_eq!(ServerStatus::Stopped.as_str(), "Stopped.");
    assert_eq!(ServerStatus::Stopping.as_str(), "Stopping!!");
    assert_eq!(ServerStatus::Starting.as_str(), "Starting! Please Wait.");
    assert_eq!(ServerStatus::Running.as_str(), "Running, Go ahead and join.");
}

#[test]
fn new_config_fields() {
    let c = ServerConfig::new("survival".to_string(), ServerType::Fabric, "1.20.4".to_string(), 25565, 2048, "/srv/servers");
    assert_eq!(c.name, "survival");
    assert_eq!(c.server_type, ServerType::Fabric);
    assert_eq!(c.version, "1.20.4");
    assert_eq!(c.port, 25565);
    assert_eq!(c.memory_mb, 2048);
    assert_eq!(c.jar_file(), "server.jar");
    assert_eq!(c.path(), format!("/srv/servers/{}", c.id()));
}

#[test]
fn new_config_id_is_v4_uuid_text() {
    let c = ServerConfig::new("a".to_string(), ServerType::Vanilla, "1.21".to_string(), 25565, 1024, "servers");
    let id: Vec<char> = c.id().chars().collect();
    assert_eq!(id.len(), 36);
    for (i, ch) in id.iter().enumerate() {
        if i == 8 || i == 13 || i == 18 || i == 23 {
            assert_eq!(*ch, '-');
        } else {
            assert!(ch.is_ascii_digit() || ('a'..='f').contains(ch));
        }
    }
    assert_eq!(id[14], '4');
}

#[test]
fn new_configs_get_distinct_ids_and_paths() {
    let a = ServerConfig::new("x".to_string(), ServerType::Forge, "1.20".to_string(), 25565, 1024, "servers");
    let b = ServerConfig::new("x".to_string(), ServerType::Forge, "1.20".to_string(), 25565, 1024, "servers");
    assert_ne!(a.id(), b.id());
    assert_ne!(a.path(), b.path());
}

#[test]
fn path_joins_root_and_id() {
    let c = ServerConfig::with_id("abc".to_string(), "/srv/", "n".to_string(), ServerType::Spigot, "1.8".to_string(), 1, 2);
    assert_eq!(c.path(), "/srv/abc");
    assert_eq!(c.id(), "abc");
    let d = ServerConfig::with_id("abc".to_string(), "", "n".to_string(), ServerType::Spigot, "1.8".to_string(), 1, 2);
    assert_eq!(d.path(), "abc");
    let e = ServerConfig::with_id("abc".to_string(), "root", "n".to_string(), ServerType::Spigot, "1.8".to_string(), 1, 2);
    assert_eq!(e.path(), "root/abc");
}

#[test]
fn renaming_keeps_path() {
    let mut c = ServerConfig::with_id("id1".to_string(), "s", "old".to_string(), ServerType::PaperMC, "1.20".to_string(), 25565, 512);
    c.name = "new".to_string();
    c.port = 25566;
    assert_eq!(c.path(), "s/id1");
    assert_eq!(c.id(), "id1");
}

#[test]
fn load_ops_missing_file_is_empty() {
    assert_eq!(load_ops(None), Ok(Vec::new()));
}

#[test]
fn load_ops_passes_records_on() {
    let op = OpEntry { uuid: "069a79f4-44e9-4726-a5be-fca90e38aaf5".to_string(), name: "Notch".to_string(), level: 4, bypasses_player_limit: false };
    assert_eq!(load_ops(Some(Ok(vec![op.clone()]))), Ok(vec![op]));
}

#[test]
fn load_ops_malformed_json_is_decode_error() {
    let decoded = serde_json::from_str::<serde_json::Value>("[{\"uuid\": ").map(|_| Vec::new()).map_err(|e| e.to_string());
    assert!(decoded.is_err());
    match load_ops(Some(decoded)) {
        Err(StoreError::Decode(m)) => assert!(!m.is_empty()),
        other => panic!("unexpected {:?}", other),
    }
}
