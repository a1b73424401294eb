use idlebot::commands::idle::{register, COMMAND_DESCRIPTION, COMMAND_NAME};
use idlebot::commands::{plan_interaction, InteractionPlan, NOT_IMPLEMENTED};
use serenity::builder::CreateApplicationCommand;
use serenity::json::Value;

#[test]
fn idle_command_asks_for_the_guild_partition() {
    match plan_interaction("idle", Some(175928847299117063)) {
        InteractionPlan::IdleReport { partition } => assert_eq!(partition, "175928847299117063"),
        _ => panic!("the idle command is answered from the store"),
    }
}

#[test]
fn other_commands_are_not_implemented() {
    for name in ["", "prune", "recover", "Idle", "idle ", "idl", "idles"] {
        match plan_interaction(name, Some(1)) {
            InteractionPlan::Reply { content } => {
                assert_eq!(content, "not implemented :(");
                assert_eq!(content, NOT_IMPLEMENTED);
            },
            _ => panic!("only the idle command is implemented"),
        }
    }
}

#[test]
fn command_without_guild_is_not_answered() {
    assert!(matches!(plan_interaction("idle", None), InteractionPlan::MissingGuild));
    assert!(matches!(plan_interaction("prune", None), InteractionPlan::MissingGuild));
}

#[test]
fn registration_sets_name_and_description() {
    let mut command = CreateApplicationCommand::default();
    register(&mut command);
    assert_eq!(command.0.get("name"), Some(&Value::from("idle")));
    assert_eq!(command.0.get("description"), Some(&Value::from("List idle users")));
    assert_eq!(command.0.len(), 2);
    assert!(!command.0.contains_key("options"));
    assert_eq!(COMMAND_NAME, "idle");
    assert_eq!(COMMAND_DESCRIPTION, "List idle users");
}

#[test]
fn registration_replaces_earlier_texts_and_can_be_chained() {
    let mut command = CreateApplicationCommand::default();
    command.name("other").description("something else").dm_permission(false);
    register(&mut command).name_localized("de", "untaetig");
    assert_eq!(command.0.get("name"), Some(&Value::from("idle")));
    assert_eq!(command.0.get("description"), Some(&Value::from("List idle users")));
    assert_eq!(command.0.get("dm_permission"), Some(&Value::from(false)));
    assert!(command.0.contains_key("name_localizations"));
    assert_eq!(command.0.len(), 4);
}

#[test]
fn registration_adds_no_field_but_name_and_description() {
    let mut command = CreateApplicationCommand::default();
    command.dm_permission(true);
    let mut before: Vec<&str> = command.0.keys().copied().collect();
    register(&mut command);
    let mut after: Vec<&str> = command.0.keys().copied().collect();
    before.push("name");
    before.push("description");
    before.sort();
    after.sort();
    assert_eq!(after, before);
    assert_eq!(command.0.get("dm_permission"), Some(&Value::from(true)));
}
