use gdsearch::config::Config;

#[test]
fn settings_are_trimmed_and_later_keys_win() {
    let c = Config::parse(b"installation_dir = /games/gd \r\nsave_dir=/old\nsave_dir=  /saves\n=x\nempty=\nno equals\n");
    assert_eq!(c.installation_dir().as_deref(), Some("/games/gd"));
    assert_eq!(c.save_dir().as_deref(), Some("/saves"));
    assert_eq!(c.map.get(&"empty".to_string()), None);
    assert_eq!(c.map.get(&"".to_string()), None);
}

#[test]
fn candidate_paths_follow_the_directories() {
    let c = Config::parse(b"installation_dir=/gd\nsave_dir=/s");
    assert_eq!(
        c.database_candidates(),
        vec!["/gd/database/database.arz", "/gd/gdx1/database/GDX1.arz", "/gd/gdx2/database/GDX2.arz"]
    );
    assert_eq!(
        c.localization_candidates(),
        vec!["/gd/resources/Text_EN.arc", "/gd/gdx1/resources/Text_EN.arc", "/gd/gdx2/resources/Text_EN.arc"]
    );
    assert_eq!(c.stash_candidates(), Some(("/s/transfer.gst".to_string(), "/s/transfer.gsh".to_string())));
    assert_eq!(c.characters_dir().as_deref(), Some("/s/main"));
}

#[test]
fn missing_settings_give_nothing() {
    let c = Config::parse(b"");
    assert_eq!(c.installation_dir(), None);
    assert!(c.database_candidates().is_empty());
    assert!(c.localization_candidates().is_empty());
    assert_eq!(c.stash_candidates(), None);
}
