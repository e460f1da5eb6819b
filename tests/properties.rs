use server_manager::ServerProperties;

fn value_of(p: &ServerProperties, key: &str) -> Option<String> {
    p.get(key).cloned()
}

#[test]
fn load_skips_comments_and_blank_lines() {
    let p = ServerProperties::load(Some("# comment\nmax-players = 10\n\nmotd=Hello World\n"));
    assert_eq!(value_of(&p, "max-players"), Some("10".to_string()));
    assert_eq!(value_of(&p, "motd"), Some("Hello World".to_string()));
    assert_eq!(value_of(&p, "# comment"), None);
    assert_eq!(p.save(), "max-players=10\nmotd=Hello World\n");
}

#[test]
fn save_sorts_keys() {
    let mut p = ServerProperties::new();
    p.set("b", "2");
    p.set("a", "1");
    assert_eq!(p.save(), "a=1\nb=2\n");
}

#[test]
fn save_order_does_not_depend_on_insertion_order() {
    let mut p = ServerProperties::new();
    p.set("pvp", "true");
    p.set("difficulty", "easy");
    p.set("motd", "hi");
    let mut q = ServerProperties::new();
    q.set("motd", "hi");
    q.set("pvp", "true");
    q.set("difficulty", "easy");
    assert_eq!(p.save(), q.save());
    assert_eq!(p.save(), "difficulty=easy\nmotd=hi\npvp=true\n");
}

#[test]
fn save_orders_by_code_point() {
    let mut p = ServerProperties::new();
    p.set("ab", "1");
    p.set("a", "2");
    p.set("B", "3");
    p.set("é", "4");
    p.set("", "5");
    assert_eq!(p.save(), "=5\nB=3\na=2\nab=1\né=4\n");
}

#[test]
fn load_save_round_trip() {
    let mut p = ServerProperties::new();
    p.set("level-seed", "");
    p.set("motd", "A Minecraft Server");
    p.set("level-type", "minecraft:normal");
    p.set("spawn-protection", "16");
    let text = p.save();
    let q = ServerProperties::load(Some(text.as_str()));
    assert_eq!(q.save(), text);
    assert_eq!(value_of(&q, "level-seed"), Some(String::new()));
    assert_eq!(value_of(&q, "motd"), Some("A Minecraft Server".to_string()));
}

#[test]
fn load_missing_file_is_empty() {
    let p = ServerProperties::load(None);
    assert_eq!(p.save(), "");
    assert_eq!(value_of(&p, "motd"), None);
}

#[test]
fn load_empty_text_is_empty() {
    let p = ServerProperties::load(Some(""));
    assert_eq!(p.save(), "");
}

#[test]
fn load_splits_on_first_equals() {
    let p = ServerProperties::load(Some("url=a=b=c\n"));
    assert_eq!(value_of(&p, "url"), Some("a=b=c".to_string()));
}

#[test]
fn load_last_duplicate_wins() {
    let p = ServerProperties::load(Some("pvp=true\npvp=false\n"));
    assert_eq!(value_of(&p, "pvp"), Some("false".to_string()));
    assert_eq!(p.save(), "pvp=false\n");
}

#[test]
fn load_ignores_lines_without_equals() {
    let p = ServerProperties::load(Some("just words\nk=v"));
    assert_eq!(p.save(), "k=v\n");
}

#[test]
fn load_trims_lines_keys_and_values() {
    let p = ServerProperties::load(Some("  \t# indented comment\r\n  key  =  some value \r\n\t\n"));
    assert_eq!(value_of(&p, "key"), Some("some value".to_string()));
    assert_eq!(p.save(), "key=some value\n");
}

#[test]
fn load_keeps_hash_after_first_character() {
    let p = ServerProperties::load(Some("color=#ff0000\n"));
    assert_eq!(value_of(&p, "color"), Some("#ff0000".to_string()));
}

#[test]
fn set_replaces_value() {
    let mut p = ServerProperties::default();
    p.set("max-players", "20");
    p.set("max-players", "30");
    assert_eq!(value_of(&p, "max-players"), Some("30".to_string()));
    assert_eq!(p.save(), "max-players=30\n");
}

#[test]
fn get_missing_key_is_none() {
    let mut p = ServerProperties::new();
    p.set("a", "1");
    assert_eq!(value_of(&p, "b"), None);
    assert_eq!(value_of(&p, "a"), Some("1".to_string()));
}

#[test]
fn common_properties_table() {
    let t = ServerProperties::get_common_properties();
    assert_eq!(t.len(), 19);
    assert_eq!(t[0], ("server-port", "25565"));
    assert_eq!(t[2], ("motd", "A Minecraft Server"));
    assert_eq!(t[17], ("level-seed", ""));
    assert_eq!(t[18], ("level-type", "minecraft:normal"));
}

#[test]
fn common_properties_seed_new_instance() {
    let mut p = ServerProperties::new();
    for (k, v) in ServerProperties::get_common_properties() {
        p.set(k, v);
    }
    assert_eq!(value_of(&p, "view-distance"), Some("10".to_string()));
    let q = ServerProperties::load(Some(p.save().as_str()));
    assert_eq!(q.save(), p.save());
}
