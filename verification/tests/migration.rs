use discord_exporter::migration::{migrations, run_migrations, MigrationError, INITIAL_SCHEMA, LATEST_VERSION};

#[test]
fn a_new_database_gets_every_script() {
    let plan = run_migrations(0).expect("a plan");
    assert_eq!(plan.scripts, vec![INITIAL_SCHEMA]);
    assert_eq!(plan.user_version, 1);
    assert_eq!(plan.scripts, migrations());
}

#[test]
fn a_current_database_gets_no_script() {
    let plan = run_migrations(LATEST_VERSION).expect("a plan");
    assert!(plan.scripts.is_empty());
    assert_eq!(plan.user_version, LATEST_VERSION);
}

#[test]
fn a_later_database_is_refused() {
    assert_eq!(run_migrations(LATEST_VERSION + 1).err(), Some(MigrationError::CannotDowngrade));
    assert_eq!(run_migrations(usize::MAX).err(), Some(MigrationError::CannotDowngrade));
}

#[test]
fn the_schema_has_the_four_tables() {
    for table in ["guilds", "channels", "messages", "message_ranges"] {
        assert!(INITIAL_SCHEMA.contains(&format!("CREATE TABLE {table} (")), "{table}");
    }
}
