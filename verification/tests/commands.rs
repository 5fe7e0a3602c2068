use std::collections::HashMap;

use cdpr::commands::play::find_clip;
use cdpr::commands::save::wav_file_name;
use cdpr::commands::shadow_realm::{
    format_usernames, get_user_voice_channel, get_voice_states, has_targets, plan_punishments,
    punish_message, remove_banishment, CommandError, Punishment, BANISHED_ROLE_ID,
};

fn names(v: &[&str]) -> Vec<String> {
    v.iter().map(|s| s.to_string()).collect()
}

#[test]
fn wav_extension_is_added_once() {
    assert_eq!(wav_file_name("clip".to_string()), "clip.wav");
    assert_eq!(wav_file_name("clip.wav".to_string()), "clip.wav");
    assert_eq!(wav_file_name(wav_file_name("a.mp3".to_string())), "a.mp3.wav");
    assert_eq!(wav_file_name("wav".to_string()), "wav.wav");
    assert_eq!(wav_file_name(String::new()), ".wav");
}

#[test]
fn find_clip_finds_first_match() {
    let stems = names(&["intro", "boom", "boom"]);
    assert_eq!(find_clip(&stems, &"boom".to_string()), Some(1));
    assert_eq!(find_clip(&stems, &"bang".to_string()), None);
}

#[test]
fn usernames_are_listed() {
    assert_eq!(format_usernames(&names(&["A"])), "A");
    assert_eq!(format_usernames(&names(&["A", "B"])), "B and A");
    assert_eq!(format_usernames(&names(&["A", "B", "C"])), "C, B, and A");
    assert_eq!(format_usernames(&names(&[])), "");
}

#[test]
fn punish_message_agrees_with_count() {
    assert_eq!(punish_message(&"A".to_string(), 1), "A is being punished for 5 seconds...");
    assert_eq!(
        punish_message(&"B and A".to_string(), 2),
        "B and A are being punished for 5 seconds..."
    );
}

#[test]
fn voice_states_of_users() {
    let mut states: HashMap<u64, Option<u64>> = HashMap::new();
    states.insert(1, Some(100));
    states.insert(2, Some(200));
    states.insert(3, None);
    assert_eq!(get_user_voice_channel(&states, 1), Ok(100));
    assert_eq!(get_user_voice_channel(&states, 3), Err(CommandError::UserNotInVoice));
    assert_eq!(get_user_voice_channel(&states, 4), Err(CommandError::UserNotInVoice));

    assert_eq!(get_voice_states(None, 1, &vec![2]), Err(CommandError::GuildNotFound));
    assert_eq!(get_voice_states(Some(&states), 4, &vec![2]), Err(CommandError::AuthorNotInVoice));
    assert_eq!(get_voice_states(Some(&states), 1, &vec![1, 3, 4]), Err(CommandError::UserNotInVoice));
    assert_eq!(
        get_voice_states(Some(&states), 1, &vec![2, 1, 3]),
        Ok(vec![(2, 200), (1, 100)])
    );
}

#[test]
fn banishment_role_is_removed() {
    let roles = vec![5, BANISHED_ROLE_ID, 6, BANISHED_ROLE_ID];
    assert_eq!(remove_banishment(&roles), vec![5, 6]);
    assert_eq!(remove_banishment(&vec![]), Vec::<u64>::new());
}

#[test]
fn punishments_are_planned_per_user() {
    assert!(has_targets(1, 2));
    assert!(!has_targets(0, 2));
    assert!(!has_targets(1, 0));
    let plan = plan_punishments(&vec![(2, 200), (3, 300), (1, 100)], 1);
    assert_eq!(
        plan,
        vec![
            (2, 200, Punishment::Banish),
            (3, 300, Punishment::Banish),
            (1, 100, Punishment::MoveToShadowRealm)
        ]
    );
}
